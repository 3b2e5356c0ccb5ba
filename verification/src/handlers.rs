//! What each remote call decides and answers. Storage, metadata and other nodes are asked by the
//! caller; the functions here say what to ask next and what to answer.
use crate::convert;
use crate::convert::{fresh_meta, given, said, told};
use crate::distributed;
use crate::distributed::{committed, effective_chunk_size, has_remote, stripe_size, ReadStripe};
use crate::error::{Code, KVError, Status};
use crate::key::{KeyView, ObjectKey};
use crate::layout;
use crate::layout::turn;
use crate::metadata::{BlockMeta, ChunkLocation, ChunkView, MetaView};
use crate::order;
use crate::order::{arrange, arranged};
use crate::payload;
use crate::payload::{concat, payload, payloads};
use crate::pb;
use crate::pb::{DescriptorView, PlacementView};
use crate::placement;
use crate::placement::{
    chunk_views, describes, descriptor_of, hits, placement_fault, placement_of, stripe_offsets_fit,
    KVServiceContext,
};
use crate::stripes;
use crate::stripes::{stripe_count, stripe_end};
use prost::bytes::Bytes;
use vstd::prelude::*;
use vstd::string::*;

verus! {

/// The key that a request must name.
pub fn require_key(key: Option<&pb::ObjectKey>, otherwise: &str) -> (r: Result<ObjectKey, Status>)
    ensures
        match key {
            Some(k) => r is Ok && r->Ok_0@ == k@,
            None => r is Err && r->Err_0.says(Code::InvalidArgument, otherwise@),
        },
{
    match key {
        Some(k) => Ok(placement::pb_key_to_internal(k)),
        None => Err(Status::new(Code::InvalidArgument, otherwise)),
    }
}

/// The descriptor that a request must bring.
pub fn require_descriptor(descriptor: Option<pb::ObjectDescriptor>) -> (r: Result<
    pb::ObjectDescriptor,
    Status,
>)
    ensures
        match descriptor {
            Some(d) => r == Ok::<pb::ObjectDescriptor, Status>(d),
            None => r is Err && r->Err_0.says(Code::InvalidArgument, "missing descriptor"@),
        },
{
    match descriptor {
        Some(d) => Ok(d),
        None => Err(Status::new(Code::InvalidArgument, "missing descriptor")),
    }
}

// ---- records that may have outlived their time ----
/// How the lookup of a live record goes on.
pub enum LiveStep {
    /// The lookup ends.
    Answer(Option<BlockMeta>),
    /// The record has expired: remove the object, and tell whether that was done.
    Purge(BlockMeta),
    /// Look again: somebody else replaced the record meanwhile.
    Reread,
}

/// First look: a record that has not expired is the answer.
pub fn live_lookup(found: Option<BlockMeta>, expired: bool) -> (r: LiveStep)
    ensures
        match found {
            None => r == LiveStep::Answer(None),
            Some(m) => r == (if expired {
                LiveStep::Purge(m)
            } else {
                LiveStep::Answer(Some(m))
            }),
        },
{
    match found {
        None => LiveStep::Answer(None),
        Some(m) => if expired {
            LiveStep::Purge(m)
        } else {
            LiveStep::Answer(Some(m))
        },
    }
}

/// After an attempt to remove the expired object: where it was removed there is none.
pub fn live_after_purge(purged: bool) -> (r: LiveStep)
    ensures
        r == (if purged {
            LiveStep::Answer(None)
        } else {
            LiveStep::Reread
        }),
{
    if purged {
        LiveStep::Answer(None)
    } else {
        LiveStep::Reread
    }
}

/// Second look: an expired record counts as none.
pub fn live_reread(found: Option<BlockMeta>, expired: bool) -> (r: LiveStep)
    ensures
        r == LiveStep::Answer(
            if expired {
                None
            } else {
                found
            },
        ),
{
    if expired {
        LiveStep::Answer(None)
    } else {
        LiveStep::Answer(found)
    }
}

/// Two records are of the same version of an object.
pub open spec fn same_version(a: MetaView, b: MetaView) -> bool {
    &&& a.object_handle == b.object_handle
    &&& a.object_generation == b.object_generation
    &&& a.layout_version == b.layout_version
    &&& a.content_etag == b.content_etag
    &&& a.size == b.size
}

/// Whether two records are of the same version of an object.
pub fn meta_identity_matches(actual: &BlockMeta, expected: &BlockMeta) -> (r: bool)
    ensures
        r == same_version(actual@, expected@),
{
    actual.object_handle == expected.object_handle && actual.object_generation
        == expected.object_generation && actual.layout_version == expected.layout_version
        && actual.content_etag == expected.content_etag && actual.size == expected.size
}

/// How an expired object is removed.
pub enum PurgeStep {
    /// It has not expired.
    Keep,
    /// All of it is on this node: the storage removes it.
    Local,
    /// Parts are on other nodes: once the record is confirmed and deleted, these stripes are.
    Distributed(pb::PlacementDescriptor),
}

/// Plans the removal of an expired object.
pub fn purge_plan(ctx: &KVServiceContext, key: &ObjectKey, meta: &BlockMeta, expired: bool) -> (r:
    PurgeStep)
    requires
        stripe_offsets_fit(meta@),
    ensures
        match r {
            PurgeStep::Keep => !expired,
            PurgeStep::Distributed(p) => expired && has_remote(
                ctx,
                placement_of(ctx, key@, meta@).chunks,
            ) && p@ == placement_of(ctx, key@, meta@),
            PurgeStep::Local => expired && !has_remote(ctx, placement_of(ctx, key@, meta@).chunks),
        },
{
    if !expired {
        return PurgeStep::Keep;
    }
    let p = placement::placement_from_meta(ctx, key, meta);
    if distributed::placement_has_remote_chunks(ctx, &p) {
        PurgeStep::Distributed(p)
    } else {
        PurgeStep::Local
    }
}

/// Whether the record is still the expired one that is to be removed.
pub fn purge_confirmed(current: Option<&BlockMeta>, current_expired: bool, expected: &BlockMeta) -> (r:
    bool)
    ensures
        r == (current is Some && current_expired && same_version(current->0@, expected@)),
{
    match current {
        Some(m) => current_expired && meta_identity_matches(m, expected),
        None => false,
    }
}

// ---- reading ----
/// Where an object is read from.
pub enum ReadRoute {
    /// From this node.
    Local,
    /// Stripe by stripe, from the nodes that hold them.
    Distributed { descriptor: pb::ObjectDescriptor, placement: pb::PlacementDescriptor },
}

/// Decides where an object is read from.
pub fn read_route(ctx: &KVServiceContext, key: &ObjectKey, meta: Option<&BlockMeta>) -> (r:
    ReadRoute)
    requires
        meta is Some ==> stripe_offsets_fit(meta->0@),
    ensures
        match r {
            ReadRoute::Local => meta is None || !has_remote(
                ctx,
                placement_of(ctx, key@, meta->0@).chunks,
            ),
            ReadRoute::Distributed { descriptor, placement } => {
                &&& meta is Some
                &&& has_remote(ctx, placement_of(ctx, key@, meta->0@).chunks)
                &&& descriptor@ == descriptor_of(key@, meta->0@)
                &&& placement@ == placement_of(ctx, key@, meta->0@)
            },
        },
{
    match meta {
        None => ReadRoute::Local,
        Some(m) => {
            let p = placement::placement_from_meta(ctx, key, m);
            if distributed::placement_has_remote_chunks(ctx, &p) {
                ReadRoute::Distributed {
                    descriptor: placement::descriptor_from_meta(key, m),
                    placement: p,
                }
            } else {
                ReadRoute::Local
            }
        },
    }
}

/// The placement that goes along with each stripe request: the same, without the stripes.
pub fn validation_placement(p: &pb::PlacementDescriptor) -> (r: pb::PlacementDescriptor)
    ensures
        r@ == (PlacementView { chunks: Seq::empty(), ..p@ }),
{
    let mut r = p.clone();
    r.chunks = Vec::new();
    proof {
        assert(r@.chunks =~= Seq::<ChunkView>::empty());
    }
    r
}

/// The checksum that a stripe must have: the recorded one for a striped object, otherwise none.
pub fn expected_checksum(descriptor: &pb::ObjectDescriptor, chunk: &pb::PlacementChunk) -> (r:
    Option<String>)
    ensures
        match r {
            Some(c) => descriptor.is_striped && c@ == chunk.checksum@,
            None => !descriptor.is_striped,
        },
{
    if descriptor.is_striped {
        Some(chunk.checksum.clone())
    } else {
        None
    }
}

/// Collects the parts of a stripe that another node sends, up to the one marked as the last.
pub struct PartCollector {
    pub parts: Vec<Bytes>,
    pub done: bool,
}

impl PartCollector {
    pub fn new() -> (r: PartCollector)
        ensures
            r.parts@.len() == 0,
            !r.done,
    {
        PartCollector { parts: Vec::new(), done: false }
    }

    /// Takes in the next part.
    pub fn take(&mut self, data: Bytes, is_last: bool)
        requires
            !old(self).done,
        ensures
            final(self).parts@ == old(self).parts@.push(data),
            final(self).done == is_last,
    {
        self.parts.push(data);
        self.done = is_last;
    }

    /// The bytes of all parts.
    pub fn finish(self) -> (r: Bytes)
        requires
            concat(payloads(self.parts@)).len() <= isize::MAX,
        ensures
            payload(r) == concat(payloads(self.parts@)),
    {
        payload::flatten_segments(self.parts)
    }
}

/// The bytes of stripes that were read, in the order of their numbers.
pub open spec fn stripe_data(s: Seq<ReadStripe>) -> Seq<Seq<u8>> {
    s.map_values(|x: ReadStripe| payload(x.data))
}

/// Puts the stripes that were read in order.
pub fn join_stripes(stripes: Vec<ReadStripe>) -> (r: Vec<Bytes>)
    ensures
        payloads(r@) == stripe_data(arranged(stripes@)),
{
    let sorted = arrange(stripes);
    let mut out: Vec<Bytes> = Vec::new();
    let mut i: usize = 0;
    while i < sorted.len()
        invariant
            i <= sorted.len(),
            out.len() == i,
            forall|k: int| 0 <= k < i ==> payload(#[trigger] out@[k]) == payload(sorted@[k].data),
        decreases sorted.len() - i,
    {
        out.push(sorted[i].data.clone());
        i = i + 1;
    }
    proof {
        assert(payloads(out@) =~= stripe_data(sorted@));
    }
    out
}

/// Answer to a read.
pub struct GetResponse {
    pub data: Bytes,
    pub metadata: Option<pb::KvMetadata>,
    pub found: bool,
}

impl GetResponse {
    /// The answer gives this value.
    pub open spec fn gives(self, data: Seq<u8>, meta: MetaView) -> bool {
        self.found && payload(self.data) == data && self.metadata is Some && self.metadata->0@
            == told(meta)
    }

    /// The answer says that there is none.
    pub open spec fn is_miss(self) -> bool {
        !self.found && payload(self.data).len() == 0 && self.metadata is None
    }
}

/// Answers a read with what was found.
pub fn get_reply(found: Option<(Bytes, BlockMeta)>) -> (r: GetResponse)
    ensures
        match found {
            Some((data, meta)) => r.gives(payload(data), meta@),
            None => r.is_miss(),
        },
{
    match found {
        Some((data, meta)) => GetResponse {
            data,
            metadata: Some(convert::meta_to_pb(&meta)),
            found: true,
        },
        None => GetResponse { data: Bytes::new(), metadata: None, found: false },
    }
}

/// Answers a read with the stripes that the nodes sent.
pub fn distributed_get_reply(stripes: Vec<ReadStripe>, meta: &BlockMeta) -> (r: GetResponse)
    requires
        concat(stripe_data(arranged(stripes@))).len() <= isize::MAX,
    ensures
        r.gives(concat(stripe_data(arranged(stripes@))), meta@),
{
    let data = payload::flatten_segments(join_stripes(stripes));
    GetResponse { data, metadata: Some(convert::meta_to_pb(meta)), found: true }
}

/// What was found for one key of a batch.
pub type Found = Result<Option<(Bytes, BlockMeta)>, KVError>;

/// Answers a batch of reads; a read that failed counts as a miss.
pub fn get_batch_reply(results: Vec<Found>) -> (r: Vec<GetResponse>)
    ensures
        r@.len() == results@.len(),
        forall|i: int|
            0 <= i < r@.len() ==> match results@[i] {
                Ok(Some((data, meta))) => (#[trigger] r@[i]).gives(payload(data), meta@),
                _ => r@[i].is_miss(),
            },
{
    let ghost all = results@;
    let mut out: Vec<GetResponse> = Vec::new();
    for x in it: results
        invariant
            it.seq() == all,
            out@.len() == it.index(),
            forall|i: int|
                0 <= i < it.index() ==> match all[i] {
                    Ok(Some((data, meta))) => (#[trigger] out@[i]).gives(payload(data), meta@),
                    _ => out@[i].is_miss(),
                },
    {
        let found = match x {
            Ok(f) => f,
            Err(_) => None,
        };
        out.push(get_reply(found));
    }
    out
}

/// Answer to a lookup.
pub struct LookupObjectResponse {
    pub found: bool,
    pub descriptor: Option<pb::ObjectDescriptor>,
    pub placement: Option<pb::PlacementDescriptor>,
}

/// Answers a lookup with the descriptors of the live object, if there is one.
pub fn lookup_reply(ctx: &KVServiceContext, key: &ObjectKey, meta: Option<&BlockMeta>) -> (r:
    LookupObjectResponse)
    requires
        meta is Some ==> stripe_offsets_fit(meta->0@),
    ensures
        match meta {
            Some(m) => {
                &&& r.found
                &&& r.descriptor is Some && r.descriptor->0@ == descriptor_of(key@, m@)
                &&& r.placement is Some && r.placement->0@ == placement_of(ctx, key@, m@)
            },
            None => !r.found && r.descriptor is None && r.placement is None,
        },
{
    match meta {
        Some(m) => LookupObjectResponse {
            found: true,
            descriptor: Some(placement::descriptor_from_meta(key, m)),
            placement: Some(placement::placement_from_meta(ctx, key, m)),
        },
        None => LookupObjectResponse { found: false, descriptor: None, placement: None },
    }
}

/// The key of a read by descriptor.
pub fn read_request_key(descriptor: Option<&pb::ObjectDescriptor>) -> (r: Result<
    ObjectKey,
    Status,
>)
    ensures
        match descriptor {
            None => r is Err && r->Err_0.says(Code::InvalidArgument, "missing descriptor"@),
            Some(d) => match d@.key {
                Some(k) => r is Ok && r->Ok_0@ == k,
                None => r is Err && r->Err_0.says(Code::InvalidArgument, "descriptor missing key"@),
            },
        },
{
    match descriptor {
        None => Err(Status::new(Code::InvalidArgument, "missing descriptor")),
        Some(d) => placement::key_from_descriptor(d),
    }
}

/// What is wrong with a read by descriptor, held against the live record.
pub open spec fn read_fault(
    ctx: &KVServiceContext,
    key: KeyView,
    descriptor: DescriptorView,
    meta: MetaView,
    requested: Option<PlacementView>,
) -> Option<(Code, Seq<char>)> {
    if !describes(descriptor, meta) {
        Some((Code::FailedPrecondition, "stale descriptor"@))
    } else {
        placement_fault(ctx, key, meta, requested)
    }
}

/// What an optional placement says.
pub open spec fn placement_view(p: Option<&pb::PlacementDescriptor>) -> Option<PlacementView> {
    match p {
        Some(p) => Some(p@),
        None => None,
    }
}

/// Holds a read by descriptor against the live record.
pub fn check_read(
    ctx: &KVServiceContext,
    key: &ObjectKey,
    descriptor: &pb::ObjectDescriptor,
    meta: &BlockMeta,
    requested: Option<&pb::PlacementDescriptor>,
) -> (r: Result<(), Status>)
    requires
        stripe_offsets_fit(meta@),
    ensures
        match read_fault(ctx, key@, descriptor@, meta@, placement_view(requested)) {
            None => r is Ok,
            Some(f) => r is Err && r->Err_0.says(f.0, f.1),
        },
{
    match placement::validate_descriptor(descriptor, meta) {
        Err(e) => Err(e),
        Ok(_) => placement::validate_placement_descriptor(ctx, key, meta, requested),
    }
}

/// The record that a streamed read by descriptor, or one of a single stripe, needs.
pub fn require_live(meta: Option<BlockMeta>) -> (r: Result<BlockMeta, Status>)
    ensures
        match meta {
            Some(m) => r == Ok::<BlockMeta, Status>(m),
            None => r is Err && r->Err_0.says(Code::NotFound, "key not found"@),
        },
{
    match meta {
        Some(m) => Ok(m),
        None => Err(Status::new(Code::NotFound, "key not found")),
    }
}

/// Answer to a read by descriptor.
pub struct DataReadResponse {
    pub found: bool,
    pub data: Bytes,
    pub metadata: Option<pb::KvMetadata>,
    pub descriptor: Option<pb::ObjectDescriptor>,
    pub placement: Option<pb::PlacementDescriptor>,
}

/// Answers a read by descriptor: the bytes come with the current descriptors.
pub fn read_reply(ctx: &KVServiceContext, key: &ObjectKey, meta: &BlockMeta, data: Option<Bytes>) -> (r:
    DataReadResponse)
    requires
        stripe_offsets_fit(meta@),
    ensures
        match data {
            Some(d) => {
                &&& r.found
                &&& payload(r.data) == payload(d)
                &&& r.metadata is Some && r.metadata->0@ == told(meta@)
                &&& r.descriptor is Some && r.descriptor->0@ == descriptor_of(key@, meta@)
                &&& r.placement is Some && r.placement->0@ == placement_of(ctx, key@, meta@)
            },
            None => !r.found && payload(r.data).len() == 0 && r.metadata is None && r.descriptor
                is None && r.placement is None,
        },
{
    match data {
        Some(d) => DataReadResponse {
            found: true,
            data: d,
            metadata: Some(convert::meta_to_pb(meta)),
            descriptor: Some(placement::descriptor_from_meta(key, meta)),
            placement: Some(placement::placement_from_meta(ctx, key, meta)),
        },
        None => missing_read_reply(),
    }
}

/// Answers a read by descriptor where there is no live object.
pub fn missing_read_reply() -> (r: DataReadResponse)
    ensures
        !r.found && payload(r.data).len() == 0 && r.metadata is None && r.descriptor is None
            && r.placement is None,
{
    DataReadResponse {
        found: false,
        data: Bytes::new(),
        metadata: None,
        descriptor: None,
        placement: None,
    }
}

// ---- writing ----
/// Answer to a write.
pub struct PutResponse {
    pub success: bool,
    pub message: String,
}

/// Answers a write.
pub fn put_reply(inserted: bool) -> (r: PutResponse)
    ensures
        r.success == inserted,
        r.message@ == (if inserted {
            Seq::<char>::empty()
        } else {
            "already exists"@
        }),
{
    if inserted {
        PutResponse { success: true, message: String::new() }
    } else {
        PutResponse { success: false, message: "already exists".to_owned() }
    }
}

/// Whether a write that must not replace an object may go ahead.
pub enum ExistenceGate {
    /// There is none.
    Write,
    /// There is one that has expired: remove it first.
    PurgeFirst(BlockMeta),
    /// There is one.
    Refuse,
}

/// A live object refuses the write; an expired one is removed and then overwritten.
pub fn existence_gate(existing: Option<BlockMeta>, expired: bool) -> (r: ExistenceGate)
    ensures
        match existing {
            None => r == ExistenceGate::Write,
            Some(m) => r == (if expired {
                ExistenceGate::PurgeFirst(m)
            } else {
                ExistenceGate::Refuse
            }),
        },
{
    match existing {
        None => ExistenceGate::Write,
        Some(m) => if expired {
            ExistenceGate::PurgeFirst(m)
        } else {
            ExistenceGate::Refuse
        },
    }
}

/// One chunk of a streamed write.
pub struct PutChunk {
    pub key: Option<pb::ObjectKey>,
    pub data: Bytes,
    /// Position of the first byte in the object.
    pub offset: i64,
    pub is_last: bool,
    pub metadata: Option<pb::KvMetadata>,
    pub options: Option<pb::PutOptions>,
    /// Size of the object, where the chunk declares it.
    pub total_size: i64,
}

/// How a streamed write goes on after its first chunk.
pub struct PutStreamOpen {
    pub key: ObjectKey,
    pub meta: BlockMeta,
    pub if_not_exists: bool,
    /// The declared size, where the stripes are written as the stream arrives; otherwise the
    /// object is collected first.
    pub streamed: Option<u64>,
    pub first_data: Bytes,
    pub first_is_last: bool,
}

/// The stripes are written as the stream arrives.
pub open spec fn streams_directly(ctx: &KVServiceContext, declared: int) -> bool {
    declared > 0 && 0 < ctx.config.storage.striping_threshold < declared && ctx.nodes().len() > 1
}

/// Decides over a streamed write by its first chunk.
pub fn open_put_stream(ctx: &KVServiceContext, first: Option<PutChunk>) -> (r: Result<
    PutStreamOpen,
    Status,
>)
    ensures
        match first {
            None => r is Err && r->Err_0.says(Code::InvalidArgument, "empty stream"@),
            Some(c) => match c.key {
                None => r is Err && r->Err_0.says(
                    Code::InvalidArgument,
                    "first chunk must include key"@,
                ),
                Some(k) => {
                    &&& r is Ok
                    &&& r->Ok_0.key@ == k@
                    &&& r->Ok_0.meta@ == fresh_meta(
                        match c.metadata {
                            Some(m) => Some(m@),
                            None => None,
                        },
                        c.options,
                        r->Ok_0.meta.last_accessed_at,
                    )
                    &&& r->Ok_0.if_not_exists == (c.options is Some && c.options->0.if_not_exists)
                    &&& r->Ok_0.streamed == (if streams_directly(ctx, c.total_size as int) {
                        Some(c.total_size as u64)
                    } else {
                        None::<u64>
                    })
                    &&& payload(r->Ok_0.first_data) == payload(c.data)
                    &&& r->Ok_0.first_is_last == c.is_last
                },
            },
        },
{
    let c = match first {
        None => {
            return Err(Status::new(Code::InvalidArgument, "empty stream"));
        },
        Some(c) => c,
    };
    let key = match require_key(c.key.as_ref(), "first chunk must include key") {
        Ok(k) => k,
        Err(e) => {
            return Err(e);
        },
    };
    let meta = convert::meta_from_pb(c.metadata.as_ref(), c.options.as_ref());
    let if_not_exists = convert::put_options_if_not_exists(c.options.as_ref());
    let streamed: Option<u64> = if c.total_size > 0 && placement::distributed_placement_enabled(
        ctx,
        c.total_size as u64,
    ) {
        Some(c.total_size as u64)
    } else {
        None
    };
    Ok(
        PutStreamOpen {
            key,
            meta,
            if_not_exists,
            streamed,
            first_data: c.data,
            first_is_last: c.is_last,
        },
    )
}

/// How a collected object is stored.
pub enum BufferedPut {
    /// Over several nodes, as one buffer.
    Distributed(Bytes),
    /// On this node, in the segments in which it arrived.
    Local(Vec<Bytes>),
}

/// Decides how an object that was collected from a stream is stored.
pub fn buffered_put(ctx: &KVServiceContext, segments: Vec<Bytes>) -> (r: BufferedPut)
    requires
        concat(payloads(segments@)).len() <= isize::MAX,
    ensures
        ({
            let total = concat(payloads(segments@)).len();
            if 0 < ctx.config.storage.striping_threshold < total && ctx.nodes().len() > 1 {
                r is Distributed && payload(r->Distributed_0) == concat(payloads(segments@))
            } else {
                r == BufferedPut::Local(segments)
            }
        }),
{
    let total: usize = payload::total_len(&segments);
    if placement::distributed_placement_enabled(ctx, total as u64) {
        BufferedPut::Distributed(payload::flatten_segments(segments))
    } else {
        BufferedPut::Local(segments)
    }
}

/// One write of a batch, as it arrives.
pub struct PutItem {
    pub key: Option<pb::ObjectKey>,
    pub data: Bytes,
    pub metadata: Option<pb::KvMetadata>,
    pub options: Option<pb::PutOptions>,
}

/// One write of a batch, ready to be carried out.
pub struct PlannedPut {
    pub key: ObjectKey,
    pub data: Bytes,
    pub meta: BlockMeta,
    pub if_not_exists: bool,
}

impl PlannedPut {
    /// This is what the item asks for.
    pub open spec fn carries_out(self, item: PutItem) -> bool {
        &&& item.key is Some
        &&& self.key@ == item.key->0@
        &&& payload(self.data) == payload(item.data)
        &&& self.meta@ == fresh_meta(
            match item.metadata {
                Some(m) => Some(m@),
                None => None,
            },
            item.options,
            self.meta.last_accessed_at,
        )
        &&& self.if_not_exists == (item.options is Some && item.options->0.if_not_exists)
    }
}

/// A batch of writes, ready to be carried out.
pub struct PutBatchPlan {
    pub items: Vec<PlannedPut>,
    /// Some item must not replace an object: each is carried out on its own.
    pub one_by_one: bool,
}

/// Plans a batch of writes. An item without a key refuses the whole batch.
pub fn plan_put_batch(items: Vec<PutItem>) -> (r: Result<PutBatchPlan, Status>)
    ensures
        match r {
            Ok(plan) => {
                &&& plan.items@.len() == items@.len()
                &&& forall|i: int|
                    0 <= i < items@.len() ==> (#[trigger] plan.items@[i]).carries_out(items@[i])
                &&& plan.one_by_one == exists|i: int|
                    0 <= i < items@.len() && (#[trigger] items@[i]).options is Some
                        && items@[i].options->0.if_not_exists
            },
            Err(s) => {
                &&& exists|i: int| 0 <= i < items@.len() && (#[trigger] items@[i]).key is None
                &&& s.says(Code::InvalidArgument, "missing key in batch item"@)
            },
        },
{
    let ghost all = items@;
    let mut out: Vec<PlannedPut> = Vec::new();
    let mut one_by_one: bool = false;
    for x in it: items
        invariant
            it.seq() == all,
            out@.len() == it.index(),
            forall|i: int| 0 <= i < it.index() ==> (#[trigger] out@[i]).carries_out(all[i]),
            one_by_one == exists|i: int|
                0 <= i < it.index() && (#[trigger] all[i]).options is Some
                    && all[i].options->0.if_not_exists,
    {
        proof {
            assert(x == all[it.index()]);
        }
        let key = match require_key(x.key.as_ref(), "missing key in batch item") {
            Ok(k) => k,
            Err(e) => {
                return Err(e);
            },
        };
        let meta = convert::meta_from_pb(x.metadata.as_ref(), x.options.as_ref());
        let if_not_exists = convert::put_options_if_not_exists(x.options.as_ref());
        if if_not_exists {
            one_by_one = true;
        }
        out.push(PlannedPut { key, data: x.data, meta, if_not_exists });
    }
    Ok(PutBatchPlan { items: out, one_by_one })
}

/// The success flags of a batch whose items were carried out one by one: an item that was
/// refused or failed did not succeed.
pub fn put_batch_flags(results: &Vec<Result<bool, KVError>>) -> (r: Vec<bool>)
    ensures
        r@.len() == results@.len(),
        forall|i: int| 0 <= i < r@.len() ==> r@[i] == (results@[i] matches Ok(b) && b),
{
    let mut out: Vec<bool> = Vec::new();
    let mut i: usize = 0;
    while i < results.len()
        invariant
            i <= results.len(),
            out.len() == i,
            forall|k: int| 0 <= k < i ==> out@[k] == (results@[k] matches Ok(b) && b),
        decreases results.len() - i,
    {
        let ok: bool = match &results[i] {
            Ok(b) => *b,
            Err(_) => false,
        };
        out.push(ok);
        i = i + 1;
    }
    out
}

// ---- two-phase writes by the client ----
/// Answer to the first phase of a write whose stripes the client sends to the nodes itself.
pub struct PrepareResponse {
    pub accepted: bool,
    pub message: String,
    pub descriptor: Option<pb::ObjectDescriptor>,
    pub placement: Option<pb::PlacementDescriptor>,
}

/// Why the first phase is refused before anything is looked up, if it is.
pub open spec fn prepare_refusal(ctx: &KVServiceContext, size: u64) -> Option<Seq<char>> {
    if size == 0 {
        Some("empty object"@)
    } else if !(0 < ctx.config.storage.striping_threshold < size && ctx.nodes().len() > 1) {
        Some("below striping threshold or single data node"@)
    } else {
        None
    }
}

fn prepare_refused(message: &str) -> (r: PrepareResponse)
    ensures
        !r.accepted && r.message@ == message@ && r.descriptor is None && r.placement is None,
{
    PrepareResponse {
        accepted: false,
        message: message.to_owned(),
        descriptor: None,
        placement: None,
    }
}

/// First test of the first phase: small objects, and objects of a lone node, are refused.
pub fn prepare_precheck(ctx: &KVServiceContext, size: u64) -> (r: Option<PrepareResponse>)
    ensures
        match prepare_refusal(ctx, size) {
            None => r is None,
            Some(m) => r is Some && !r->0.accepted && r->0.message@ == m && r->0.descriptor is None
                && r->0.placement is None,
        },
{
    if size == 0 {
        return Some(prepare_refused("empty object"));
    }
    if !placement::distributed_placement_enabled(ctx, size) {
        return Some(prepare_refused("below striping threshold or single data node"));
    }
    None
}

/// Second test of the first phase, for a write that must not replace an object.
pub fn prepare_existence(if_not_exists: bool, live: bool) -> (r: Option<PrepareResponse>)
    ensures
        if if_not_exists && live {
            r is Some && !r->0.accepted && r->0.message@ == "already exists"@ && r->0.descriptor
                is None && r->0.placement is None
        } else {
            r is None
        },
{
    if if_not_exists && live {
        Some(prepare_refused("already exists"))
    } else {
        None
    }
}

/// A stripe that is still to be written.
pub open spec fn reserved_chunk(ctx: &KVServiceContext, key: KeyView, size: u64, i: int) -> ChunkView {
    let c = stripe_size(ctx) as nat;
    let node = ctx.stripe_node(key, i);
    ChunkView {
        stripe_index: i as u32,
        node_id: node.node_id,
        grpc_endpoint: node.grpc_endpoint,
        rdma_endpoint: node.rdma_endpoint,
        device_id: 0,
        storage_handle: Seq::empty(),
        offset: (i * c) as u64,
        length: (stripe_end(size as nat, c, i) - i * c) as u64,
        checksum: Seq::empty(),
    }
}

/// Accepts the first phase: hands out the identity of the object and, for each stripe, the node
/// that it belongs to.
pub fn prepare_reply(ctx: &KVServiceContext, key: &ObjectKey, prepared: &BlockMeta, size: u64) -> (r:
    PrepareResponse)
    requires
        size + ctx.nodes().len() <= usize::MAX,
    ensures
        r.accepted,
        r.message@.len() == 0,
        r.descriptor is Some,
        r.descriptor->0@ == (DescriptorView {
            is_striped: true,
            stripe_count: stripe_count(size as nat, stripe_size(ctx) as nat) as u32,
            chunk_size: stripe_size(ctx),
            ..descriptor_of(key@, prepared@)
        }),
        r.placement is Some,
        r.placement->0@ == (PlacementView {
            key: Some(key@),
            placement_epoch: ctx.epoch(),
            placement_policy_id: ctx.policy(),
            layout_hash: Seq::empty(),
            primary_node_id: ctx.local().node_id,
            primary_grpc_endpoint: ctx.local().grpc_endpoint,
            primary_rdma_endpoint: ctx.local().rdma_endpoint,
            chunks: Seq::new(
                stripe_count(size as nat, stripe_size(ctx) as nat),
                |i: int| reserved_chunk(ctx, key@, size, i),
            ),
        }),
        forall|i: int|
            0 <= i < r.placement->0@.chunks.len() ==> {
                let node = ctx.nodes()[turn(key@, i, ctx.nodes().len())];
                &&& (#[trigger] r.placement->0@.chunks[i]).node_id == node.node_id
                &&& r.placement->0@.chunks[i].grpc_endpoint == node.grpc_endpoint
                &&& r.placement->0@.chunks[i].rdma_endpoint == node.rdma_endpoint
            },
{
    let chunk_size: u64 = effective_chunk_size(ctx);
    let n: u64 = stripes::count_stripes(size, chunk_size);
    let descriptor = distributed::make_distributed_descriptor(key, prepared, n, chunk_size);
    let mut chunks: Vec<pb::PlacementChunk> = Vec::new();
    let mut i: u64 = 0;
    while i < n
        invariant
            i <= n,
            chunk_size == stripe_size(ctx),
            chunk_size > 0,
            n == stripe_count(size as nat, chunk_size as nat),
            size + ctx.nodes().len() <= usize::MAX,
            chunks.len() == i,
            forall|k: int|
                0 <= k < i ==> (#[trigger] chunks@[k])@ == reserved_chunk(ctx, key@, size, k),
        decreases n - i,
    {
        proof {
            stripes::lemma_stripe_bounds(size as nat, chunk_size as nat, i as int);
            assert(i <= i * chunk_size) by (nonlinear_arith)
                requires
                    chunk_size >= 1,
            ;
            assert((i + 1) * chunk_size == i * chunk_size + chunk_size) by (nonlinear_arith);
        }
        let node = placement::select_data_node(ctx, key, i as usize);
        let start: u64 = i * chunk_size;
        let length: u64 = if size - start <= chunk_size {
            size - start
        } else {
            chunk_size
        };
        chunks.push(
            pb::PlacementChunk {
                stripe_index: i as u32,
                node_id: node.node_id,
                grpc_endpoint: node.grpc_endpoint,
                rdma_endpoint: node.rdma_endpoint,
                device_id: 0,
                storage_handle: String::new(),
                offset: start,
                length,
                checksum: String::new(),
            },
        );
        proof {
            assert(chunks@[i as int]@ =~= reserved_chunk(ctx, key@, size, i as int));
        }
        i = i + 1;
    }
    let local = placement::local_node(ctx);
    let p = pb::PlacementDescriptor {
        key: Some(placement::internal_key_to_pb(key)),
        placement_epoch: placement::placement_epoch(ctx),
        placement_policy_id: placement::placement_policy_id(ctx),
        layout_hash: String::new(),
        primary_node_id: local.node_id,
        primary_grpc_endpoint: local.grpc_endpoint,
        primary_rdma_endpoint: local.rdma_endpoint,
        chunks,
    };
    proof {
        assert(p@.chunks =~= Seq::new(
            stripe_count(size as nat, stripe_size(ctx) as nat),
            |i: int| reserved_chunk(ctx, key@, size, i),
        ));
        assert forall|i: int| 0 <= i < p@.chunks.len() implies ({
            let node = ctx.nodes()[turn(key@, i, ctx.nodes().len())];
            &&& (#[trigger] p@.chunks[i]).node_id == node.node_id
            &&& p@.chunks[i].grpc_endpoint == node.grpc_endpoint
            &&& p@.chunks[i].rdma_endpoint == node.rdma_endpoint
        }) by {
            layout::reserved_stripes_are_laid_out(ctx, key@, size, i);
        }
    }
    PrepareResponse {
        accepted: true,
        message: String::new(),
        descriptor: Some(descriptor),
        placement: Some(p),
    }
}

/// The lengths of all stripes together.
pub open spec fn total_length(chunks: Seq<ChunkView>) -> nat
    decreases chunks.len(),
{
    if chunks.len() == 0 {
        0
    } else {
        total_length(chunks.drop_last()) + chunks.last().length as nat
    }
}

/// The stripes of a prepared object, as handed out, cover it: their lengths add up to its size.
pub proof fn reserved_stripes_cover_the_object(
    ctx: &KVServiceContext,
    key: KeyView,
    size: u64,
    n: nat,
)
    requires
        n <= stripe_count(size as nat, stripe_size(ctx) as nat),
    ensures
        total_length(Seq::new(n, |i: int| reserved_chunk(ctx, key, size, i))) == (if n
            * stripe_size(ctx) <= size {
            (n * stripe_size(ctx)) as nat
        } else {
            size as nat
        }),
        n == stripe_count(size as nat, stripe_size(ctx) as nat) ==> total_length(
            Seq::new(n, |i: int| reserved_chunk(ctx, key, size, i)),
        ) == size,
    decreases n,
{
    let c = stripe_size(ctx) as nat;
    let s = Seq::new(n, |i: int| reserved_chunk(ctx, key, size, i));
    if n == 0 {
        assert(0 * c == 0) by (nonlinear_arith);
        assert(stripe_count(size as nat, c) == 0 ==> size == 0) by {
            if size > 0 && stripe_count(size as nat, c) == 0 {
                vstd::arithmetic::div_mod::lemma_fundamental_div_mod(
                    size as int + c - 1,
                    c as int,
                );
                vstd::arithmetic::div_mod::lemma_mod_bound(size as int + c - 1, c as int);
                assert(c * 0 == 0) by (nonlinear_arith);
            }
        }
    } else {
        let m = (n - 1) as nat;
        reserved_stripes_cover_the_object(ctx, key, size, m);
        stripes::lemma_stripe_bounds(size as nat, c, m as int);
        assert(s.drop_last() =~= Seq::new(m, |i: int| reserved_chunk(ctx, key, size, i)));
        assert(n * c == m * c + c) by (nonlinear_arith)
            requires
                n == m + 1,
        ;
    }
}

/// What the second phase publishes.
pub struct CommitPlan {
    pub meta: BlockMeta,
    pub if_not_exists: bool,
    /// The stripes to remove where the object turns out to exist. They are found by address.
    pub rollback: Vec<pb::PlacementChunk>,
}

/// What is wrong with the stripes that a client reports, if anything.
pub open spec fn commit_fault(
    chunks: Seq<pb::PlacementChunk>,
    expected: u32,
    verify_checksums: bool,
) -> Option<(Code, Seq<char>)> {
    let sorted = arranged(chunks);
    if chunks.len() == 0 {
        Some((Code::InvalidArgument, "no stripe locations"@))
    } else if chunks.len() != expected || exists|i: int|
        0 <= i < sorted.len() && (#[trigger] sorted[i]).stripe_index != i {
        Some((Code::InvalidArgument, "stripe locations do not cover the prepared layout"@))
    } else if verify_checksums && exists|i: int|
        0 <= i < sorted.len() && (#[trigger] sorted[i]).checksum@.len() == 0 {
        Some(
            (
                Code::FailedPrecondition,
                "stripe integrity is enabled but a stripe location lacks a checksum"@,
            ),
        )
    } else {
        None
    }
}

/// The record that the second phase publishes.
pub open spec fn commit_meta(
    sorted: Seq<ChunkView>,
    descriptor: DescriptorView,
    fresh: MetaView,
) -> MetaView {
    let total = total_length(sorted) as u64;
    MetaView {
        object_generation: descriptor.object_generation,
        layout_version: descriptor.layout_version,
        object_handle: descriptor.object_handle,
        content_etag: descriptor.content_etag,
        ..committed(fresh, sorted, total, descriptor.chunk_size)
    }
}

/// The stripe, to be found by its address alone.
pub open spec fn by_address(c: ChunkView) -> ChunkView {
    ChunkView { node_id: Seq::empty(), ..c }
}

/// Checks the stripes that a client reports: they must be exactly those prepared, with checksums
/// where those are required. Gives them in order.
pub fn check_commit(
    chunks: Vec<pb::PlacementChunk>,
    expected: u32,
    verify_checksums: bool,
) -> (r: Result<Vec<pb::PlacementChunk>, Status>)
    ensures
        match commit_fault(chunks@, expected, verify_checksums) {
            Some(f) => r is Err && r->Err_0.says(f.0, f.1),
            None => r is Ok && r->Ok_0@ == arranged(chunks@),
        },
{
    if chunks.len() == 0 {
        return Err(Status::new(Code::InvalidArgument, "no stripe locations"));
    }
    let ghost input = chunks@;
    proof {
        order::ordering_keeps_the_elements(input);
    }
    let sorted = arrange(chunks);
    if sorted.len() as u64 != expected as u64 {
        return Err(
            Status::new(Code::InvalidArgument, "stripe locations do not cover the prepared layout"),
        );
    }
    let mut missing: bool = false;
    let mut i: usize = 0;
    while i < sorted.len()
        invariant
            i <= sorted.len(),
            sorted.len() == expected,
            sorted@ == arranged(input),
            input == chunks@,
            input.len() == sorted@.len(),
            input.len() > 0,
            missing == exists|k: int|
                0 <= k < i && (#[trigger] sorted@[k]).checksum@.len() == 0,
            forall|k: int| 0 <= k < i ==> (#[trigger] sorted@[k]).stripe_index == k,
        decreases sorted.len() - i,
    {
        let c = &sorted[i];
        if c.stripe_index as u64 != i as u64 {
            proof {
                assert(sorted@[i as int].stripe_index != i);
            }
            return Err(
                Status::new(
                    Code::InvalidArgument,
                    "stripe locations do not cover the prepared layout",
                ),
            );
        }
        if c.checksum.as_str().is_empty() {
            missing = true;
        }
        i = i + 1;
    }
    if verify_checksums && missing {
        return Err(
            Status::new(
                Code::FailedPrecondition,
                "stripe integrity is enabled but a stripe location lacks a checksum",
            ),
        );
    }
    Ok(sorted)
}

/// Decides over the second phase: the stripes reported must be exactly those prepared, with
/// checksums where those are required.
pub fn plan_commit(
    descriptor: &pb::ObjectDescriptor,
    chunks: Vec<pb::PlacementChunk>,
    metadata: Option<&pb::KvMetadata>,
    options: Option<&pb::PutOptions>,
    verify_checksums: bool,
) -> (r: Result<CommitPlan, Status>)
    requires
        commit_fault(chunks@, descriptor.stripe_count, verify_checksums) is None ==> total_length(
            chunk_views(arranged(chunks@)),
        ) <= u64::MAX,
    ensures
        match commit_fault(chunks@, descriptor.stripe_count, verify_checksums) {
            Some(f) => r is Err && r->Err_0.says(f.0, f.1),
            None => {
                let sorted = chunk_views(arranged(chunks@));
                &&& r is Ok
                &&& r->Ok_0.meta@ == commit_meta(
                    sorted,
                    descriptor@,
                    fresh_meta(said(metadata), given(options), r->Ok_0.meta.last_accessed_at),
                )
                &&& r->Ok_0.if_not_exists == (options is Some && options->0.if_not_exists)
                &&& chunk_views(r->Ok_0.rollback@) == sorted.map_values(
                    |c: ChunkView| by_address(c),
                )
            },
        },
{
    let sorted = match check_commit(chunks, descriptor.stripe_count, verify_checksums) {
        Ok(sorted) => sorted,
        Err(status) => {
            return Err(status);
        },
    };
    let mut total: u64 = 0;
    let mut locations: Vec<ChunkLocation> = Vec::new();
    let mut rollback: Vec<pb::PlacementChunk> = Vec::new();
    let ghost views = chunk_views(sorted@);
    let mut i: usize = 0;
    while i < sorted.len()
        invariant
            i <= sorted.len(),
            views == chunk_views(sorted@),
            total_length(views) <= u64::MAX,
            total == total_length(views.take(i as int)),
            locations.len() == i,
            rollback.len() == i,
            forall|k: int| 0 <= k < i ==> (#[trigger] locations@[k])@ == views[k],
            forall|k: int| 0 <= k < i ==> (#[trigger] rollback@[k])@ == by_address(views[k]),
        decreases sorted.len() - i,
    {
        let c = &sorted[i];
        proof {
            assert(views[i as int] == c@);
            assert(views.take(i + 1).drop_last() =~= views.take(i as int));
            lemma_total_length_prefix(views, i + 1);
        }
        total = total + c.length;
        locations.push(placement::pb_chunk_to_location(c));
        let mut back = c.clone();
        back.node_id = String::new();
        proof {
            assert(back@ =~= by_address(c@));
        }
        rollback.push(back);
        i = i + 1;
    }
    proof {
        assert(views.take(i as int) =~= views);
        assert(distributed::location_views(locations@) =~= views);
        assert(chunk_views(rollback@) =~= views.map_values(|c: ChunkView| by_address(c)));
    }
    let fresh = convert::meta_from_pb(metadata, options);
    let mut meta = distributed::commit_record(fresh, locations, total, descriptor.chunk_size);
    meta.object_generation = descriptor.object_generation;
    meta.layout_version = descriptor.layout_version;
    meta.object_handle = descriptor.object_handle.clone();
    meta.content_etag = descriptor.content_etag.clone();
    Ok(
        CommitPlan {
            meta,
            if_not_exists: convert::put_options_if_not_exists(options),
            rollback,
        },
    )
}

/// An object that was written in two phases is read by the descriptor that the first phase
/// handed out, provided that the stripes reported in the second have the size that the
/// descriptor names.
pub proof fn prepared_descriptor_reads_the_committed_object(
    sorted: Seq<ChunkView>,
    descriptor: DescriptorView,
    fresh: MetaView,
)
    requires
        total_length(sorted) == descriptor.size,
    ensures
        describes(descriptor, commit_meta(sorted, descriptor, fresh)),
{
}

proof fn lemma_total_length_prefix(chunks: Seq<ChunkView>, n: int)
    requires
        0 <= n <= chunks.len(),
    ensures
        total_length(chunks.take(n)) <= total_length(chunks),
    decreases chunks.len() - n,
{
    if n < chunks.len() {
        lemma_total_length_prefix(chunks, n + 1);
        assert(chunks.take(n + 1).drop_last() =~= chunks.take(n));
    } else {
        assert(chunks.take(n) =~= chunks);
    }
}

/// Answer to the second phase.
pub struct CommitResponse {
    pub committed: bool,
    pub message: String,
}

/// Answers the second phase, and says which stripes are removed again: all of them where the
/// object existed already.
pub fn commit_reply(stored: bool, rollback: Vec<pb::PlacementChunk>) -> (r: (
    CommitResponse,
    Vec<pb::PlacementChunk>,
))
    ensures
        r.0.committed == stored,
        stored ==> r.0.message@.len() == 0 && r.1@.len() == 0,
        !stored ==> r.0.message@ == "already exists"@ && r.1 == rollback,
{
    if stored {
        (CommitResponse { committed: true, message: String::new() }, Vec::new())
    } else {
        (CommitResponse { committed: false, message: "already exists".to_owned() }, rollback)
    }
}

// ---- stripes that other nodes send ----
/// Accepts a stripe that belongs on this node: the ordinal by which its device is chosen.
pub fn accept_stripe(ctx: &KVServiceContext, key: &ObjectKey, stripe_index: u32) -> (r: Result<
    usize,
    Status,
>)
    requires
        stripe_index + ctx.nodes().len() <= usize::MAX,
    ensures
        if ctx.is_local(ctx.stripe_node(key@, stripe_index as int)) {
            r is Ok && r->Ok_0 == hits(ctx.local_flags(), ctx.base(key@), stripe_index as nat)
        } else {
            r is Err && r->Err_0.says(
                Code::FailedPrecondition,
                "stripe assigned to a different data node"@,
            )
        },
{
    match placement::local_device_stripe_index(ctx, key, stripe_index as usize) {
        Some(ordinal) => Ok(ordinal),
        None => Err(
            Status::new(Code::FailedPrecondition, "stripe assigned to a different data node"),
        ),
    }
}

/// Answers that a stripe was stored on this node.
pub fn stored_stripe(
    ctx: &KVServiceContext,
    stripe_index: u32,
    chunk_size: u64,
    length: u64,
    device_id: u32,
    storage_handle: String,
    checksum: String,
) -> (r: pb::PlacementChunk)
    requires
        stripe_index * chunk_size <= u64::MAX,
    ensures
        r@ == (ChunkView {
            stripe_index,
            node_id: ctx.local().node_id,
            grpc_endpoint: ctx.local().grpc_endpoint,
            rdma_endpoint: ctx.local().rdma_endpoint,
            device_id,
            storage_handle: storage_handle@,
            offset: (stripe_index * chunk_size) as u64,
            length,
            checksum: checksum@,
        }),
{
    let local = placement::local_node(ctx);
    pb::PlacementChunk {
        stripe_index,
        node_id: local.node_id,
        grpc_endpoint: local.grpc_endpoint,
        rdma_endpoint: local.rdma_endpoint,
        device_id,
        storage_handle,
        offset: stripe_index as u64 * chunk_size,
        length,
        checksum,
    }
}

/// The stripe that a request must name.
pub fn require_chunk(chunk: Option<pb::PlacementChunk>) -> (r: Result<pb::PlacementChunk, Status>)
    ensures
        match chunk {
            Some(c) => r == Ok::<pb::PlacementChunk, Status>(c),
            None => r is Err && r->Err_0.says(Code::InvalidArgument, "missing placement chunk"@),
        },
{
    match chunk {
        Some(c) => Ok(c),
        None => Err(Status::new(Code::InvalidArgument, "missing placement chunk")),
    }
}

/// The bytes of a stripe that storage was asked for.
pub fn require_stripe_data(data: Option<Bytes>) -> (r: Result<Bytes, Status>)
    ensures
        match data {
            Some(d) => r == Ok::<Bytes, Status>(d),
            None => r is Err && r->Err_0.says(Code::NotFound, "placement chunk not found"@),
        },
{
    match data {
        Some(d) => Ok(d),
        None => Err(Status::new(Code::NotFound, "placement chunk not found")),
    }
}

// ---- GPU memory ----
/// The state of GPU transfers in this process.
#[derive(Debug, Clone, Copy, PartialEq, Eq, Structural)]
pub enum GpuSupport {
    NotCompiled,
    NotAvailable,
    Available,
}

/// What is wrong with a GPU request, if anything.
pub open spec fn gpu_fault(support: GpuSupport, is_read: bool, has_key: bool, handle_len: int) -> Option<
    (Code, Seq<char>),
> {
    match support {
        GpuSupport::NotCompiled => Some(
            (Code::Unimplemented, "GDS path not compiled (rebuild with --features gds)"@),
        ),
        GpuSupport::NotAvailable => if is_read {
            Some(
                (
                    Code::FailedPrecondition,
                    "GDS runtime not available (libcufile missing or driver_open failed)"@,
                ),
            )
        } else {
            Some((Code::FailedPrecondition, "GDS runtime not available"@))
        },
        GpuSupport::Available => if !has_key {
            Some((Code::InvalidArgument, "missing key"@))
        } else if handle_len != 64 {
            Some((Code::InvalidArgument, "ipc_handle must be 64 bytes"@))
        } else {
            None
        },
    }
}

/// Checks a request to move an object into GPU memory, or out of it.
pub fn check_gpu_request(
    support: GpuSupport,
    is_read: bool,
    key: Option<&pb::ObjectKey>,
    ipc_handle: &Vec<u8>,
) -> (r: Result<ObjectKey, Status>)
    ensures
        match gpu_fault(support, is_read, key is Some, ipc_handle@.len() as int) {
            Some(f) => r is Err && r->Err_0.says(f.0, f.1),
            None => r is Ok && r->Ok_0@ == key->0@,
        },
{
    match support {
        GpuSupport::NotCompiled => {
            return Err(
                Status::new(
                    Code::Unimplemented,
                    "GDS path not compiled (rebuild with --features gds)",
                ),
            );
        },
        GpuSupport::NotAvailable => {
            if is_read {
                return Err(
                    Status::new(
                        Code::FailedPrecondition,
                        "GDS runtime not available (libcufile missing or driver_open failed)",
                    ),
                );
            }
            return Err(Status::new(Code::FailedPrecondition, "GDS runtime not available"));
        },
        GpuSupport::Available => {},
    }
    let k = match require_key(key, "missing key") {
        Ok(k) => k,
        Err(e) => {
            return Err(e);
        },
    };
    if ipc_handle.len() != 64 {
        return Err(Status::new(Code::InvalidArgument, "ipc_handle must be 64 bytes"));
    }
    Ok(k)
}

/// Answer to a read into GPU memory.
pub struct GetToGpuResponse {
    pub found: bool,
    pub bytes_read: u64,
    pub metadata: Option<pb::KvMetadata>,
}

/// Answers a read into GPU memory: how much was read of which object, or that there is none.
pub fn gpu_read_reply(read: Option<(usize, BlockMeta)>) -> (r: GetToGpuResponse)
    ensures
        r.found == (read is Some),
        match read {
            Some((n, meta)) => r.bytes_read == n && r.metadata is Some && r.metadata->0@ == told(
                meta@,
            ),
            None => r.bytes_read == 0 && r.metadata is None,
        },
{
    match read {
        Some((n, meta)) => GetToGpuResponse {
            found: true,
            bytes_read: n as u64,
            metadata: Some(convert::meta_to_pb(&meta)),
        },
        None => GetToGpuResponse { found: false, bytes_read: 0, metadata: None },
    }
}

// ---- statistics ----
/// Counters of the tiers, as they are reported.
#[derive(Debug, Clone, Copy, PartialEq, Eq, Structural)]
pub struct StatsResponse {
    pub l1_cache_hits: i64,
    pub l1_cache_misses: i64,
    pub l1_cache_size_bytes: i64,
    pub l2_reads_total: i64,
    pub l2_writes_total: i64,
    pub l2_bytes_read: i64,
    pub l2_bytes_written: i64,
    pub metadata_entries: i64,
}

/// Reports the counters of the in-memory tier: hits, misses, evictions and bytes held. Of the
/// storage behind it nothing is counted here.
pub fn stats_reply(stats: (u64, u64, u64, u64)) -> (r: StatsResponse)
    ensures
        r.l1_cache_hits == stats.0 as i64,
        r.l1_cache_misses == stats.1 as i64,
        r.l1_cache_size_bytes == stats.3 as i64,
        r.l2_reads_total == 0,
        r.l2_writes_total == 0,
        r.l2_bytes_read == 0,
        r.l2_bytes_written == 0,
        r.metadata_entries == 0,
{
    StatsResponse {
        l1_cache_hits: stats.0 as i64,
        l1_cache_misses: stats.1 as i64,
        l1_cache_size_bytes: stats.3 as i64,
        l2_reads_total: 0,
        l2_writes_total: 0,
        l2_bytes_read: 0,
        l2_bytes_written: 0,
        metadata_entries: 0,
    }
}

/// The label under which a read is counted.
pub fn read_status_label(found: bool) -> (r: &'static str)
    ensures
        r@ == (if found {
            "ok"@
        } else {
            "not_found"@
        }),
{
    if found {
        "ok"
    } else {
        "not_found"
    }
}

} // verus!
