//! Reads and removals from the request to the answer. The caller looks up, reads and deletes;
//! the flows say what to do next and what to answer.
use crate::convert::told;
use crate::distributed::{has_remote, ReadStripe};
use crate::error::{Code, Status};
use crate::handlers;
use crate::handlers::{
    read_fault, stripe_data, DataReadResponse, PurgeStep, ReadRoute,
};
use crate::key::{KeyView, ObjectKey};
use crate::metadata::{BlockMeta, MetaView, StripingInfo};
use crate::order::arranged;
use crate::payload;
use crate::payload::{concat, payload, payloads};
use crate::pb;
use crate::pb::{DescriptorView, PlacementView};
use crate::placement;
use crate::placement::{descriptor_of, placement_of, stripe_offsets_fit, KVServiceContext};
use crate::streaming;
use crate::streaming::{carries, object_chunks, DataChunk, DescriptorDataChunk};
use prost::bytes::Bytes;
use vstd::prelude::*;

verus! {

/// What a read does next.
pub enum GetAction {
    /// Read the stripes from the nodes that hold them.
    ReadStripes { descriptor: pb::ObjectDescriptor, placement: pb::PlacementDescriptor },
    /// Look into the in-memory tier, without touching the storage.
    Peek,
    /// Read and send the stripes that are on this node one after the other.
    SendStripes { stripe_count: usize, chunk_size: u64, total_size: u64 },
    /// Read from this node.
    ReadLocal,
    /// Send these chunks.
    Send(Vec<DataChunk>),
    /// Refuse.
    Refuse(Status),
}

/// How far a streamed read has come.
#[derive(Clone, Copy, PartialEq, Eq, Structural, Debug)]
pub enum GetPhase {
    LookingUp,
    ReadingStripes,
    Peeking,
    ReadingLocal,
    Done,
}

/// A streamed read under way.
pub struct GetStreamFlow {
    pub key: ObjectKey,
    pub meta: Option<BlockMeta>,
    pub phase: GetPhase,
}

/// The segments make an object that can be numbered in a stream.
pub open spec fn can_be_sent(segs: Seq<Seq<u8>>) -> bool {
    concat(segs).len() <= i64::MAX && concat(segs).len() <= usize::MAX
}

/// The action sends the object that consists of these segments.
pub open spec fn sends(a: GetAction, segs: Seq<Seq<u8>>) -> bool {
    a matches GetAction::Send(c) && carries(c@, object_chunks(segs), concat(segs).len() as int)
}

/// The object is read from the nodes that hold its stripes.
pub open spec fn reads_stripes(
    a: GetAction,
    descriptor: DescriptorView,
    placement: PlacementView,
) -> bool {
    a matches GetAction::ReadStripes { descriptor: d, placement: p } && d@ == descriptor && p@
        == placement
}

/// The request is refused because there is no object.
pub open spec fn says_not_found(a: GetAction) -> bool {
    a matches GetAction::Refuse(e) && e.says(Code::NotFound, "key not found"@)
}

impl GetStreamFlow {
    /// Starts with the live record of the key looked up.
    pub fn new(key: Option<&pb::ObjectKey>) -> (r: Result<GetStreamFlow, Status>)
        ensures
            match key {
                None => r is Err && r->Err_0.says(Code::InvalidArgument, "missing key"@),
                Some(k) => r is Ok && r->Ok_0.key@ == k@ && r->Ok_0.meta is None
                    && r->Ok_0.phase == GetPhase::LookingUp,
            },
    {
        match handlers::require_key(key, "missing key") {
            Ok(key) => Ok(GetStreamFlow { key, meta: None, phase: GetPhase::LookingUp }),
            Err(e) => Err(e),
        }
    }

    /// Goes on with the live record: an object with stripes on other nodes is read from them,
    /// any other is looked for in memory first.
    pub fn looked_up(&mut self, ctx: &KVServiceContext, found: Result<Option<BlockMeta>, Status>) -> (a:
        GetAction)
        requires
            old(self).phase == GetPhase::LookingUp,
            found matches Ok(Some(m)) ==> stripe_offsets_fit(m@),
        ensures
            final(self).key == old(self).key,
            match found {
                Err(e) => a == GetAction::Refuse(e) && final(self).phase == GetPhase::Done,
                Ok(None) => a == GetAction::Peek && final(self).phase == GetPhase::Peeking
                    && final(self).meta is None,
                Ok(Some(m)) => {
                    let p = placement_of(ctx, old(self).key@, m@);
                    &&& final(self).meta == Some(m)
                    &&& if has_remote(ctx, p.chunks) {
                        &&& reads_stripes(a, descriptor_of(old(self).key@, m@), p)
                        &&& final(self).phase == GetPhase::ReadingStripes
                    } else {
                        a == GetAction::Peek && final(self).phase == GetPhase::Peeking
                    }
                },
            },
    {
        match found {
            Err(e) => {
                self.phase = GetPhase::Done;
                GetAction::Refuse(e)
            },
            Ok(meta) => {
                let route = handlers::read_route(ctx, &self.key, meta.as_ref());
                self.meta = meta;
                match route {
                    ReadRoute::Distributed { descriptor, placement } => {
                        self.phase = GetPhase::ReadingStripes;
                        GetAction::ReadStripes { descriptor, placement }
                    },
                    ReadRoute::Local => {
                        self.phase = GetPhase::Peeking;
                        GetAction::Peek
                    },
                }
            },
        }
    }

    /// Sends the stripes that the nodes sent, in their order.
    pub fn stripes_read(&mut self, read: Result<Vec<ReadStripe>, Status>) -> (a: GetAction)
        requires
            old(self).phase == GetPhase::ReadingStripes,
            read matches Ok(s) ==> can_be_sent(stripe_data(arranged(s@))),
        ensures
            final(self).key == old(self).key,
            final(self).phase == GetPhase::Done,
            match read {
                Err(e) => a == GetAction::Refuse(e),
                Ok(s) => sends(a, stripe_data(arranged(s@))),
            },
    {
        self.phase = GetPhase::Done;
        match read {
            Err(e) => GetAction::Refuse(e),
            Ok(stripes) => {
                let segments = handlers::join_stripes(stripes);
                GetAction::Send(streaming::data_chunks(&segments))
            },
        }
    }

    /// Sends what is in memory; otherwise a striped object is read and sent stripe by stripe,
    /// and any other is read first.
    pub fn peeked(&mut self, found: Option<Vec<Bytes>>) -> (a: GetAction)
        requires
            old(self).phase == GetPhase::Peeking,
            found matches Some(s) ==> can_be_sent(payloads(s@)),
        ensures
            final(self).key == old(self).key,
            final(self).meta == old(self).meta,
            match found {
                Some(s) => sends(a, payloads(s@)) && final(self).phase == GetPhase::Done,
                None => match striping_of(old(self).meta) {
                    Some(s) => a == (GetAction::SendStripes {
                        stripe_count: s.chunk_paths@.len() as usize,
                        chunk_size: s.chunk_size,
                        total_size: s.total_size,
                    }) && s.chunk_paths@.len() <= usize::MAX && final(self).phase
                        == GetPhase::Done,
                    None => a == GetAction::ReadLocal && final(self).phase
                        == GetPhase::ReadingLocal,
                },
            },
    {
        match found {
            Some(segments) => {
                self.phase = GetPhase::Done;
                GetAction::Send(streaming::data_chunks(&segments))
            },
            None => {
                match &self.meta {
                    Some(m) => match &m.striping {
                        Some(s) => {
                            let n: usize = s.chunk_paths.len();
                            let action = GetAction::SendStripes {
                                stripe_count: n,
                                chunk_size: s.chunk_size,
                                total_size: s.total_size,
                            };
                            self.phase = GetPhase::Done;
                            return action;
                        },
                        None => {},
                    },
                    None => {},
                }
                self.phase = GetPhase::ReadingLocal;
                GetAction::ReadLocal
            },
        }
    }

    /// Sends what was read from this node.
    pub fn local_read(&mut self, found: Result<Option<Vec<Bytes>>, Status>) -> (a: GetAction)
        requires
            old(self).phase == GetPhase::ReadingLocal,
            found matches Ok(Some(s)) ==> can_be_sent(payloads(s@)),
        ensures
            final(self).key == old(self).key,
            final(self).phase == GetPhase::Done,
            match found {
                Err(e) => a == GetAction::Refuse(e),
                Ok(None) => says_not_found(a),
                Ok(Some(s)) => sends(a, payloads(s@)),
            },
    {
        self.phase = GetPhase::Done;
        match found {
            Err(e) => GetAction::Refuse(e),
            Ok(None) => GetAction::Refuse(Status::new(Code::NotFound, "key not found")),
            Ok(Some(segments)) => GetAction::Send(streaming::data_chunks(&segments)),
        }
    }
}

/// The layout of a striped object.
pub open spec fn striping_of(meta: Option<BlockMeta>) -> Option<StripingInfo> {
    match meta {
        Some(m) => m.striping,
        None => None,
    }
}

/// What a read by descriptor does next.
pub enum DescriptorAction {
    /// Read the stripes from the nodes that hold them.
    ReadStripes { descriptor: pb::ObjectDescriptor, placement: pb::PlacementDescriptor },
    /// Read from this node, by the layout of the live record.
    ReadLocal,
    /// Answer with one message.
    Answer(DataReadResponse),
    /// Send these chunks.
    Send(Vec<DescriptorDataChunk>),
    /// Refuse.
    Refuse(Status),
}

/// A read by descriptor under way.
pub struct DescriptorFlow {
    pub descriptor: pb::ObjectDescriptor,
    pub requested: Option<pb::PlacementDescriptor>,
    pub key: ObjectKey,
    /// The answer is sent as a stream.
    pub streamed: bool,
    pub meta: Option<BlockMeta>,
}

/// The answer gives these bytes with the current descriptors.
pub open spec fn gives(
    r: DataReadResponse,
    ctx: &KVServiceContext,
    key: KeyView,
    meta: MetaView,
    data: Seq<u8>,
) -> bool {
    &&& r.found
    &&& payload(r.data) == data
    &&& r.metadata is Some && r.metadata->0@ == told(meta)
    &&& r.descriptor is Some && r.descriptor->0@ == descriptor_of(key, meta)
    &&& r.placement is Some && r.placement->0@ == placement_of(ctx, key, meta)
}

/// The answer says that there is no object.
pub open spec fn is_miss(r: DataReadResponse) -> bool {
    !r.found && payload(r.data).len() == 0 && r.metadata is None && r.descriptor is None
        && r.placement is None
}

/// The stream carries the object, and the current descriptors on its first chunk.
pub open spec fn sends_described(
    c: Seq<DescriptorDataChunk>,
    ctx: &KVServiceContext,
    key: KeyView,
    meta: MetaView,
    segs: Seq<Seq<u8>>,
) -> bool {
    exists|plain: Seq<DataChunk>, d: pb::ObjectDescriptor, p: pb::PlacementDescriptor|
        #![trigger carries(plain, object_chunks(segs), concat(segs).len() as int), d@, p@]
        carries(plain, object_chunks(segs), concat(segs).len() as int) && d@ == descriptor_of(
            key,
            meta,
        ) && p@ == placement_of(ctx, key, meta) && c.len() == plain.len() && forall|i: int|
            0 <= i < c.len() ==> (#[trigger] c[i]).says(plain[i], i == 0, d, p)
}

/// What a request says of the placement.
pub open spec fn asked_placement(p: Option<pb::PlacementDescriptor>) -> Option<PlacementView> {
    match p {
        Some(p) => Some(p@),
        None => None,
    }
}

impl DescriptorFlow {
    /// Starts with the live record of the key that the descriptor names looked up.
    pub fn new(
        descriptor: Option<pb::ObjectDescriptor>,
        requested: Option<pb::PlacementDescriptor>,
        streamed: bool,
    ) -> (r: Result<DescriptorFlow, Status>)
        ensures
            match descriptor {
                None => r is Err && r->Err_0.says(Code::InvalidArgument, "missing descriptor"@),
                Some(d) => match d@.key {
                    None => r is Err && r->Err_0.says(
                        Code::InvalidArgument,
                        "descriptor missing key"@,
                    ),
                    Some(k) => r is Ok && r->Ok_0.descriptor == d && r->Ok_0.requested == requested
                        && r->Ok_0.key@ == k && r->Ok_0.streamed == streamed && r->Ok_0.meta
                        is None,
                },
            },
    {
        let key = match handlers::read_request_key(descriptor.as_ref()) {
            Ok(k) => k,
            Err(e) => {
                return Err(e);
            },
        };
        match descriptor {
            Some(descriptor) => Ok(
                DescriptorFlow { descriptor, requested, key, streamed, meta: None },
            ),
            None => Err(Status::new(Code::InvalidArgument, "missing descriptor")),
        }
    }

    /// Holds the request against the live record. A stream is refused where there is none; a
    /// single message answers that there is none.
    pub fn looked_up(&mut self, ctx: &KVServiceContext, found: Result<Option<BlockMeta>, Status>) -> (a:
        DescriptorAction)
        requires
            found matches Ok(Some(m)) ==> stripe_offsets_fit(m@),
        ensures
            final(self).key == old(self).key,
            final(self).streamed == old(self).streamed,
            match found {
                Err(e) => a == DescriptorAction::Refuse(e),
                Ok(None) => if old(self).streamed {
                    a matches DescriptorAction::Refuse(e) && e.says(
                        Code::NotFound,
                        "key not found"@,
                    )
                } else {
                    a matches DescriptorAction::Answer(r) && is_miss(r)
                },
                Ok(Some(m)) => match read_fault(
                    ctx,
                    old(self).key@,
                    old(self).descriptor@,
                    m@,
                    asked_placement(old(self).requested),
                ) {
                    Some(f) => a matches DescriptorAction::Refuse(e) && e.says(f.0, f.1),
                    None => {
                        let p = placement_of(ctx, old(self).key@, m@);
                        &&& final(self).meta == Some(m)
                        &&& if has_remote(ctx, p.chunks) {
                            a matches DescriptorAction::ReadStripes { descriptor, placement }
                                && descriptor@ == old(self).descriptor@ && placement@ == p
                        } else {
                            a is ReadLocal
                        }
                    },
                },
            },
    {
        let meta = match found {
            Err(e) => {
                return DescriptorAction::Refuse(e);
            },
            Ok(None) => {
                if self.streamed {
                    return DescriptorAction::Refuse(
                        Status::new(Code::NotFound, "key not found"),
                    );
                }
                return DescriptorAction::Answer(handlers::missing_read_reply());
            },
            Ok(Some(m)) => m,
        };
        match handlers::check_read(
            ctx,
            &self.key,
            &self.descriptor,
            &meta,
            self.requested.as_ref(),
        ) {
            Err(e) => DescriptorAction::Refuse(e),
            Ok(_) => {
                let route = handlers::read_route(ctx, &self.key, Some(&meta));
                self.meta = Some(meta);
                match route {
                    ReadRoute::Distributed { descriptor: _, placement } => {
                        DescriptorAction::ReadStripes {
                            descriptor: self.descriptor.clone(),
                            placement,
                        }
                    },
                    ReadRoute::Local => DescriptorAction::ReadLocal,
                }
            },
        }
    }

    /// Answers with the segments that were read, from other nodes or from this one.
    pub fn segments_read(
        &self,
        ctx: &KVServiceContext,
        read: Result<Option<Vec<Bytes>>, Status>,
    ) -> (a: DescriptorAction)
        requires
            self.meta is Some,
            stripe_offsets_fit(self.meta->0@),
            read matches Ok(Some(s)) ==> can_be_sent(payloads(s@)) && concat(payloads(s@)).len()
                <= isize::MAX,
        ensures
            match read {
                Err(e) => a == DescriptorAction::Refuse(e),
                Ok(None) => if self.streamed {
                    a matches DescriptorAction::Refuse(e) && e.says(
                        Code::NotFound,
                        "key not found"@,
                    )
                } else {
                    a matches DescriptorAction::Answer(r) && is_miss(r)
                },
                Ok(Some(s)) => if self.streamed {
                    a matches DescriptorAction::Send(c) && sends_described(
                        c@,
                        ctx,
                        self.key@,
                        self.meta->0@,
                        payloads(s@),
                    )
                } else {
                    a matches DescriptorAction::Answer(r) && gives(
                        r,
                        ctx,
                        self.key@,
                        self.meta->0@,
                        concat(payloads(s@)),
                    )
                },
            },
    {
        let meta = match &self.meta {
            Some(m) => m,
            None => {
                return DescriptorAction::Answer(handlers::missing_read_reply());
            },
        };
        match read {
            Err(e) => DescriptorAction::Refuse(e),
            Ok(None) => if self.streamed {
                DescriptorAction::Refuse(Status::new(Code::NotFound, "key not found"))
            } else {
                DescriptorAction::Answer(handlers::missing_read_reply())
            },
            Ok(Some(segments)) => if self.streamed {
                let plain = streaming::data_chunks(&segments);
                let d = placement::descriptor_from_meta(&self.key, meta);
                let p = placement::placement_from_meta(ctx, &self.key, meta);
                let c = streaming::with_descriptors(&plain, &d, &p);
                proof {
                    let segs = payloads(segments@);
                    assert(carries(plain@, object_chunks(segs), concat(segs).len() as int));
                    assert(d@ == descriptor_of(self.key@, meta@));
                    assert(p@ == placement_of(ctx, self.key@, meta@));
                }
                DescriptorAction::Send(c)
            } else {
                let data = payload::flatten_segments(segments);
                DescriptorAction::Answer(handlers::read_reply(ctx, &self.key, meta, Some(data)))
            },
        }
    }
}

/// What a removal does next.
pub enum DeleteAction {
    /// Delete these stripes on the nodes that hold them.
    DeleteStripes(pb::PlacementDescriptor),
    /// Drop what memory holds of the object, and delete the record where it is still this one.
    DropRecord(BlockMeta),
    /// Delete the object on this node.
    DeleteLocal,
    /// Answer whether there was an object.
    Answer(Result<bool, Status>),
}

/// A removal under way.
pub struct DeleteFlow {
    pub key: ObjectKey,
    pub meta: Option<BlockMeta>,
}

impl DeleteFlow {
    /// Starts with the record of the key looked up, expired or not.
    pub fn new(key: Option<&pb::ObjectKey>) -> (r: Result<DeleteFlow, Status>)
        ensures
            match key {
                None => r is Err && r->Err_0.says(Code::InvalidArgument, "missing key"@),
                Some(k) => r is Ok && r->Ok_0.key@ == k@ && r->Ok_0.meta is None,
            },
    {
        match handlers::require_key(key, "missing key") {
            Ok(key) => Ok(DeleteFlow { key, meta: None }),
            Err(e) => Err(e),
        }
    }

    /// An object with stripes on other nodes loses its stripes first.
    pub fn looked_up(&mut self, ctx: &KVServiceContext, found: Result<Option<BlockMeta>, Status>) -> (a:
        DeleteAction)
        requires
            found matches Ok(Some(m)) ==> stripe_offsets_fit(m@),
        ensures
            final(self).key == old(self).key,
            match found {
                Err(e) => a == DeleteAction::Answer(Err::<bool, Status>(e)),
                Ok(None) => a == DeleteAction::DeleteLocal,
                Ok(Some(m)) => {
                    let p = placement_of(ctx, old(self).key@, m@);
                    &&& final(self).meta == Some(m)
                    &&& if has_remote(ctx, p.chunks) {
                        a matches DeleteAction::DeleteStripes(q) && q@ == p
                    } else {
                        a == DeleteAction::DeleteLocal
                    }
                },
            },
    {
        match found {
            Err(e) => DeleteAction::Answer(Err(e)),
            Ok(meta) => {
                let route = handlers::read_route(ctx, &self.key, meta.as_ref());
                self.meta = meta;
                match route {
                    ReadRoute::Distributed { descriptor: _, placement } => {
                        DeleteAction::DeleteStripes(placement)
                    },
                    ReadRoute::Local => DeleteAction::DeleteLocal,
                }
            },
        }
    }

    /// The record goes once every stripe is gone; one stripe that stays keeps it.
    pub fn stripes_deleted(self, results: Vec<Result<(), Status>>) -> (a: DeleteAction)
        requires
            self.meta is Some,
        ensures
            match first_failure(results@) {
                Some(e) => a == DeleteAction::Answer(Err::<bool, Status>(e)),
                None => a == DeleteAction::DropRecord(self.meta->0),
            },
    {
        match all_done(results) {
            Err(e) => DeleteAction::Answer(Err(e)),
            Ok(_) => match self.meta {
                Some(m) => DeleteAction::DropRecord(m),
                None => DeleteAction::Answer(Ok(false)),
            },
        }
    }
}

/// The first failure of a list of results.
pub open spec fn first_failure(results: Seq<Result<(), Status>>) -> Option<Status>
    decreases results.len(),
{
    if results.len() == 0 {
        None
    } else {
        match first_failure(results.drop_last()) {
            Some(e) => Some(e),
            None => match results.last() {
                Err(e) => Some(e),
                Ok(_) => None,
            },
        }
    }
}

proof fn lemma_first_failure(results: Seq<Result<(), Status>>, n: int)
    requires
        0 <= n <= results.len(),
        first_failure(results.take(n)) is Some,
    ensures
        first_failure(results) == first_failure(results.take(n)),
    decreases results.len() - n,
{
    if n == results.len() {
        assert(results.take(n) =~= results);
    } else {
        assert(results.take(n + 1).drop_last() =~= results.take(n));
        lemma_first_failure(results, n + 1);
    }
}

/// Whether everything was done; the first failure counts.
pub fn all_done(results: Vec<Result<(), Status>>) -> (r: Result<(), Status>)
    ensures
        match first_failure(results@) {
            Some(e) => r == Err::<(), Status>(e),
            None => r is Ok,
        },
{
    let ghost all = results@;
    proof {
        assert(all.take(0) =~= Seq::<Result<(), Status>>::empty());
    }
    for x in it: results
        invariant
            it.seq() == all,
            first_failure(all.take(it.index())) is None,
    {
        proof {
            assert(all.take(it.index() + 1).drop_last() =~= all.take(it.index()));
            assert(all.take(it.index() + 1).last() == x);
        }
        match x {
            Err(e) => {
                proof {
                    lemma_first_failure(all, it.index() + 1);
                }
                return Err(e);
            },
            Ok(_) => {},
        }
    }
    proof {
        assert(all.take(all.len() as int) =~= all);
    }
    Ok(())
}

/// Answers once the record of a removed object was dealt with: the stripes are gone either way.
pub fn record_dropped(result: Result<bool, Status>) -> (r: Result<bool, Status>)
    ensures
        match result {
            Err(e) => r == Err::<bool, Status>(e),
            Ok(_) => r == Ok::<bool, Status>(true),
        },
{
    match result {
        Err(e) => Err(e),
        Ok(_) => Ok(true),
    }
}

/// What the removal of an expired object does next.
pub enum PurgeAction {
    /// Read the record once more.
    Confirm,
    /// Delete the record where it is still this one.
    DropRecord(BlockMeta),
    /// Drop what memory holds of the object, and delete these stripes.
    DeleteStripes(pb::PlacementDescriptor),
    /// Let the storage remove the object where its record is still this one.
    PurgeLocal(BlockMeta),
    /// Answer whether the object was removed.
    Answer(Result<bool, Status>),
}

/// The removal of an expired object under way. The write lock of its key is held.
pub struct PurgeFlow {
    pub key: ObjectKey,
    pub meta: BlockMeta,
    pub placement: Option<pb::PlacementDescriptor>,
}

impl PurgeFlow {
    /// An object that has not expired stays. One that is on this node alone is left to the
    /// storage.
    pub fn new(ctx: &KVServiceContext, key: ObjectKey, meta: BlockMeta, expired: bool) -> (r: (
        PurgeFlow,
        PurgeAction,
    ))
        requires
            stripe_offsets_fit(meta@),
        ensures
            r.0.key == key,
            r.0.meta == meta,
            ({
                let p = placement_of(ctx, key@, meta@);
                if !expired {
                    r.1 == PurgeAction::Answer(Ok::<bool, Status>(false))
                } else if has_remote(ctx, p.chunks) {
                    r.1 == PurgeAction::Confirm && r.0.placement is Some && r.0.placement->0@ == p
                } else {
                    r.1 matches PurgeAction::PurgeLocal(m) && m@ == meta@
                }
            }),
    {
        let step = handlers::purge_plan(ctx, &key, &meta, expired);
        match step {
            PurgeStep::Keep => (
                PurgeFlow { key, meta, placement: None },
                PurgeAction::Answer(Ok(false)),
            ),
            PurgeStep::Local => {
                let copy = meta.clone();
                (PurgeFlow { key, meta, placement: None }, PurgeAction::PurgeLocal(copy))
            },
            PurgeStep::Distributed(p) => (
                PurgeFlow { key, meta, placement: Some(p) },
                PurgeAction::Confirm,
            ),
        }
    }

    /// Goes on only where the record is still the expired one.
    pub fn confirmed(&self, current: Result<Option<BlockMeta>, Status>, current_expired: bool) -> (a:
        PurgeAction)
        ensures
            match current {
                Err(e) => a == PurgeAction::Answer(Err::<bool, Status>(e)),
                Ok(c) => if c is Some && current_expired && handlers::same_version(
                    c->0@,
                    self.meta@,
                ) {
                    a matches PurgeAction::DropRecord(m) && m@ == self.meta@
                } else {
                    a == PurgeAction::Answer(Ok::<bool, Status>(false))
                },
            },
    {
        match current {
            Err(e) => PurgeAction::Answer(Err(e)),
            Ok(c) => if handlers::purge_confirmed(c.as_ref(), current_expired, &self.meta) {
                PurgeAction::DropRecord(self.meta.clone())
            } else {
                PurgeAction::Answer(Ok(false))
            },
        }
    }

    /// The stripes go only after the record: whoever deleted it deletes them.
    pub fn record_dropped(self, dropped: Result<bool, Status>) -> (a: PurgeAction)
        requires
            self.placement is Some,
        ensures
            match dropped {
                Err(e) => a == PurgeAction::Answer(Err::<bool, Status>(e)),
                Ok(false) => a == PurgeAction::Answer(Ok::<bool, Status>(false)),
                Ok(true) => a == PurgeAction::DeleteStripes(self.placement->0),
            },
    {
        match dropped {
            Err(e) => PurgeAction::Answer(Err(e)),
            Ok(false) => PurgeAction::Answer(Ok(false)),
            Ok(true) => match self.placement {
                Some(p) => PurgeAction::DeleteStripes(p),
                None => PurgeAction::Answer(Ok(true)),
            },
        }
    }
}

/// Answers once the stripes of an expired object were deleted.
pub fn purge_finished(results: Vec<Result<(), Status>>) -> (r: Result<bool, Status>)
    ensures
        match first_failure(results@) {
            Some(e) => r == Err::<bool, Status>(e),
            None => r == Ok::<bool, Status>(true),
        },
{
    match all_done(results) {
        Err(e) => Err(e),
        Ok(_) => Ok(true),
    }
}

} // verus!
