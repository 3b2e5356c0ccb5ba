//! A write from its first message to its answer. The caller receives, locks, looks up, removes
//! and stores; the flow says what to do next and what to answer.
use crate::convert;
use crate::convert::fresh_meta;
use crate::error::{Code, Status};
use crate::handlers;
use crate::handlers::{
    buffered_put, existence_gate, open_put_stream, put_reply, streams_directly, BufferedPut,
    ExistenceGate, PutChunk, PutItem, PutResponse,
};
use crate::key::ObjectKey;
use crate::metadata::BlockMeta;
use crate::payload::{concat, payload, payloads};
use crate::placement;
use crate::placement::KVServiceContext;
use prost::bytes::Bytes;
use vstd::prelude::*;

verus! {

/// How an object is stored.
pub enum Storing {
    /// Stripe by stripe, over several nodes, while the rest of the stream arrives.
    Streamed { declared: u64, first_data: Bytes, first_is_last: bool },
    /// Over several nodes, from one buffer.
    Distributed(Bytes),
    /// On this node, from one buffer.
    Single(Bytes),
    /// On this node, from the segments in which it arrived.
    Segments(Vec<Bytes>),
}

/// What is to be done next.
pub enum PutAction {
    /// Take the next chunk from the stream.
    NextChunk,
    /// Take the write lock of the key and, where that is asked for, look its record up.
    Lock { look_up: bool },
    /// Remove the expired object that has this record.
    Purge(BlockMeta),
    /// Store the object; with `if_absent` only where there is none.
    Write { storing: Storing, if_absent: bool },
    /// Answer.
    Answer(Result<PutResponse, Status>),
}

/// What comes from a stream.
pub enum StreamItem {
    Chunk { data: Bytes, is_last: bool },
    End,
    Failed(Status),
}

/// How far a write has come.
pub enum PutPhase {
    /// The object is collected.
    Collecting(Vec<Bytes>),
    /// The lock, and what is under the key, are waited for.
    Locking(Storing),
    /// The removal of an expired object is waited for.
    Purging(Storing),
    /// The end of the writing is waited for. A write that replaces what is there counts as done
    /// once it is through, unless the writer itself tells.
    Writing { tells: bool },
    Done,
}

/// A write under way.
pub struct PutFlow {
    pub key: ObjectKey,
    pub meta: BlockMeta,
    pub if_not_exists: bool,
    pub phase: PutPhase,
}

/// The answer says whether the object was stored.
pub open spec fn answers(a: PutAction, inserted: bool) -> bool {
    match a {
        PutAction::Answer(Ok(r)) => r.success == inserted && r.message@ == (if inserted {
            Seq::<char>::empty()
        } else {
            "already exists"@
        }),
        _ => false,
    }
}

/// The phase once an object is to be stored.
pub open spec fn writing(storing: Storing, if_not_exists: bool) -> PutPhase {
    PutPhase::Writing { tells: if_not_exists || storing is Streamed }
}

impl PutFlow {
    /// The write goes on for the same object.
    pub open spec fn same_object(&self, other: &PutFlow) -> bool {
        self.key == other.key && self.meta == other.meta && self.if_not_exists
            == other.if_not_exists
    }

    /// The object is collected: it is spread over the nodes under the lock, or stored here.
    pub open spec fn collected(
        &self,
        ctx: &KVServiceContext,
        segments: Seq<Bytes>,
        a: PutAction,
    ) -> bool {
        let data = concat(payloads(segments));
        if 0 < ctx.config.storage.striping_threshold < data.len() && ctx.nodes().len() > 1 {
            &&& a == (PutAction::Lock { look_up: self.if_not_exists })
            &&& self.phase matches PutPhase::Locking(Storing::Distributed(b)) && payload(b) == data
        } else {
            &&& a matches PutAction::Write { storing: Storing::Segments(s), if_absent }
            &&& s@ == segments
            &&& if_absent == self.if_not_exists
            &&& self.phase == (PutPhase::Writing { tells: self.if_not_exists })
        }
    }

    fn decide(&mut self, ctx: &KVServiceContext, segments: Vec<Bytes>) -> (a: PutAction)
        requires
            concat(payloads(segments@)).len() <= isize::MAX,
        ensures
            final(self).same_object(old(self)),
            final(self).collected(ctx, segments@, a),
    {
        match buffered_put(ctx, segments) {
            BufferedPut::Distributed(data) => {
                self.phase = PutPhase::Locking(Storing::Distributed(data));
                PutAction::Lock { look_up: self.if_not_exists }
            },
            BufferedPut::Local(segments) => {
                self.phase = PutPhase::Writing { tells: self.if_not_exists };
                PutAction::Write {
                    storing: Storing::Segments(segments),
                    if_absent: self.if_not_exists,
                }
            },
        }
    }

    /// A write whose object arrives in one message.
    pub fn single(ctx: &KVServiceContext, item: PutItem) -> (r: Result<(PutFlow, PutAction), Status>)
        ensures
            match item.key {
                None => r is Err && r->Err_0.says(Code::InvalidArgument, "missing key"@),
                Some(k) => {
                    &&& r is Ok
                    &&& {
                        let (flow, a) = r->Ok_0;
                        &&& flow.key@ == k@
                        &&& flow.if_not_exists == (item.options is Some
                            && item.options->0.if_not_exists)
                        &&& flow.meta@ == fresh_meta(
                            match item.metadata {
                                Some(m) => Some(m@),
                                None => None,
                            },
                            item.options,
                            flow.meta.last_accessed_at,
                        )
                        &&& if 0 < ctx.config.storage.striping_threshold < payload(item.data).len()
                            && ctx.nodes().len() > 1 {
                            &&& a == (PutAction::Lock { look_up: flow.if_not_exists })
                            &&& flow.phase == PutPhase::Locking(Storing::Distributed(item.data))
                        } else {
                            &&& a == (PutAction::Write {
                                storing: Storing::Single(item.data),
                                if_absent: flow.if_not_exists,
                            })
                            &&& flow.phase == (PutPhase::Writing { tells: flow.if_not_exists })
                        }
                    }
                },
            },
    {
        let key = match handlers::require_key(item.key.as_ref(), "missing key") {
            Ok(k) => k,
            Err(e) => {
                return Err(e);
            },
        };
        let meta = convert::meta_from_pb(item.metadata.as_ref(), item.options.as_ref());
        let if_not_exists = convert::put_options_if_not_exists(item.options.as_ref());
        let len: usize = item.data.len();
        if placement::distributed_placement_enabled(ctx, len as u64) {
            let flow = PutFlow {
                key,
                meta,
                if_not_exists,
                phase: PutPhase::Locking(Storing::Distributed(item.data)),
            };
            Ok((flow, PutAction::Lock { look_up: if_not_exists }))
        } else {
            let flow = PutFlow {
                key,
                meta,
                if_not_exists,
                phase: PutPhase::Writing { tells: if_not_exists },
            };
            let action = PutAction::Write {
                storing: Storing::Single(item.data),
                if_absent: if_not_exists,
            };
            Ok((flow, action))
        }
    }

    /// A write whose object arrives as a stream, by its first chunk. Where that declares a size
    /// that is spread over the nodes, nothing is collected.
    pub fn stream(ctx: &KVServiceContext, first: Option<PutChunk>) -> (r: Result<
        (PutFlow, PutAction),
        Status,
    >)
        requires
            first is Some ==> payload(first->0.data).len() <= isize::MAX,
        ensures
            match first {
                None => r is Err && r->Err_0.says(Code::InvalidArgument, "empty stream"@),
                Some(c) => match c.key {
                    None => r is Err && r->Err_0.says(
                        Code::InvalidArgument,
                        "first chunk must include key"@,
                    ),
                    Some(k) => {
                        &&& r is Ok
                        &&& {
                            let (flow, a) = r->Ok_0;
                            &&& flow.key@ == k@
                            &&& flow.if_not_exists == (c.options is Some
                                && c.options->0.if_not_exists)
                            &&& flow.meta@ == fresh_meta(
                                match c.metadata {
                                    Some(m) => Some(m@),
                                    None => None,
                                },
                                c.options,
                                flow.meta.last_accessed_at,
                            )
                            &&& if streams_directly(ctx, c.total_size as int) {
                                &&& a == (PutAction::Lock { look_up: flow.if_not_exists })
                                &&& flow.phase matches PutPhase::Locking(
                                    Storing::Streamed { declared, first_data, first_is_last },
                                )
                                &&& declared == c.total_size
                                &&& payload(first_data) == payload(c.data)
                                &&& first_is_last == c.is_last
                            } else if c.is_last {
                                exists|s: Seq<Bytes>| #[trigger]
                                    flow.collected(ctx, s, a) && payloads(s) == seq![
                                        payload(c.data),
                                    ]
                            } else {
                                &&& a == PutAction::NextChunk
                                &&& flow.phase matches PutPhase::Collecting(s) && payloads(s@)
                                    == seq![payload(c.data)]
                            }
                        }
                    },
                },
            },
    {
        let open = match open_put_stream(ctx, first) {
            Ok(o) => o,
            Err(e) => {
                return Err(e);
            },
        };
        match open.streamed {
            Some(declared) => {
                let flow = PutFlow {
                    key: open.key,
                    meta: open.meta,
                    if_not_exists: open.if_not_exists,
                    phase: PutPhase::Locking(
                        Storing::Streamed {
                            declared,
                            first_data: open.first_data,
                            first_is_last: open.first_is_last,
                        },
                    ),
                };
                Ok((flow, PutAction::Lock { look_up: open.if_not_exists }))
            },
            None => {
                let ghost one = payload(open.first_data);
                let mut segments: Vec<Bytes> = Vec::new();
                segments.push(open.first_data);
                proof {
                    assert(payloads(segments@) =~= seq![one]);
                    reveal_with_fuel(concat, 2);
                    assert(concat(payloads(segments@)) =~= one);
                }
                let mut flow = PutFlow {
                    key: open.key,
                    meta: open.meta,
                    if_not_exists: open.if_not_exists,
                    phase: PutPhase::Done,
                };
                if open.first_is_last {
                    let ghost s = segments@;
                    let action = flow.decide(ctx, segments);
                    proof {
                        assert(flow.collected(ctx, s, action));
                    }
                    Ok((flow, action))
                } else {
                    flow.phase = PutPhase::Collecting(segments);
                    Ok((flow, PutAction::NextChunk))
                }
            },
        }
    }

    /// Takes in what came from the stream.
    pub fn received(&mut self, ctx: &KVServiceContext, item: StreamItem) -> (a: PutAction)
        requires
            old(self).phase is Collecting,
            match item {
                StreamItem::Chunk { data, .. } => concat(
                    payloads(old(self).phase->Collecting_0@),
                ).len() + payload(data).len() <= isize::MAX,
                _ => concat(payloads(old(self).phase->Collecting_0@)).len() <= isize::MAX,
            },
        ensures
            final(self).same_object(old(self)),
            ({
                let before = old(self).phase->Collecting_0@;
                match item {
                    StreamItem::Chunk { data, is_last } => if is_last {
                        final(self).collected(ctx, before.push(data), a)
                    } else {
                        &&& a == PutAction::NextChunk
                        &&& final(self).phase matches PutPhase::Collecting(s) && s@ == before.push(
                            data,
                        )
                    },
                    StreamItem::End => final(self).collected(ctx, before, a),
                    StreamItem::Failed(e) => a == PutAction::Answer(Err::<PutResponse, Status>(e))
                        && final(self).phase is Done,
                }
            }),
    {
        let mut phase = PutPhase::Done;
        std::mem::swap(&mut self.phase, &mut phase);
        let mut segments = match phase {
            PutPhase::Collecting(s) => s,
            _ => Vec::new(),
        };
        match item {
            StreamItem::Chunk { data, is_last } => {
                proof {
                    let before = segments@;
                    assert(payloads(before.push(data)).drop_last() =~= payloads(before));
                }
                segments.push(data);
                if is_last {
                    self.decide(ctx, segments)
                } else {
                    self.phase = PutPhase::Collecting(segments);
                    PutAction::NextChunk
                }
            },
            StreamItem::End => self.decide(ctx, segments),
            StreamItem::Failed(e) => PutAction::Answer(Err(e)),
        }
    }

    fn start_writing(&mut self, storing: Storing) -> (a: PutAction)
        ensures
            final(self).same_object(old(self)),
            final(self).phase == writing(storing, old(self).if_not_exists),
            a == (PutAction::Write { storing, if_absent: old(self).if_not_exists }),
    {
        let streamed: bool = match storing {
            Storing::Streamed { .. } => true,
            _ => false,
        };
        self.phase = PutPhase::Writing { tells: self.if_not_exists || streamed };
        PutAction::Write { storing, if_absent: self.if_not_exists }
    }

    /// Goes on once the lock is held and, where that was asked for, the record was looked up: an
    /// object that must not be replaced and is still alive ends the write.
    pub fn locked(&mut self, existing: Result<Option<BlockMeta>, Status>, expired: bool) -> (a:
        PutAction)
        requires
            old(self).phase is Locking,
        ensures
            final(self).same_object(old(self)),
            ({
                let storing = old(self).phase->Locking_0;
                let write = PutAction::Write { storing, if_absent: old(self).if_not_exists };
                if !old(self).if_not_exists {
                    a == write && final(self).phase == writing(storing, false)
                } else {
                    match existing {
                        Err(e) => a == PutAction::Answer(Err::<PutResponse, Status>(e))
                            && final(self).phase is Done,
                        Ok(None) => a == write && final(self).phase == writing(storing, true),
                        Ok(Some(m)) => if expired {
                            a == PutAction::Purge(m) && final(self).phase == PutPhase::Purging(
                                storing,
                            )
                        } else {
                            answers(a, false) && final(self).phase is Done
                        },
                    }
                }
            }),
    {
        let mut phase = PutPhase::Done;
        std::mem::swap(&mut self.phase, &mut phase);
        let storing = match phase {
            PutPhase::Locking(s) => s,
            _ => Storing::Segments(Vec::new()),
        };
        if !self.if_not_exists {
            return self.start_writing(storing);
        }
        match existing {
            Err(e) => PutAction::Answer(Err(e)),
            Ok(found) => match existence_gate(found, expired) {
                ExistenceGate::Write => self.start_writing(storing),
                ExistenceGate::PurgeFirst(m) => {
                    self.phase = PutPhase::Purging(storing);
                    PutAction::Purge(m)
                },
                ExistenceGate::Refuse => PutAction::Answer(Ok(put_reply(false))),
            },
        }
    }

    /// Goes on once the expired object was removed.
    pub fn purged(&mut self, result: Result<bool, Status>) -> (a: PutAction)
        requires
            old(self).phase is Purging,
        ensures
            final(self).same_object(old(self)),
            match result {
                Err(e) => a == PutAction::Answer(Err::<PutResponse, Status>(e))
                    && final(self).phase is Done,
                Ok(_) => {
                    let storing = old(self).phase->Purging_0;
                    &&& a == (PutAction::Write { storing, if_absent: old(self).if_not_exists })
                    &&& final(self).phase == writing(storing, old(self).if_not_exists)
                },
            },
    {
        let mut phase = PutPhase::Done;
        std::mem::swap(&mut self.phase, &mut phase);
        let storing = match phase {
            PutPhase::Purging(s) => s,
            _ => Storing::Segments(Vec::new()),
        };
        match result {
            Err(e) => PutAction::Answer(Err(e)),
            Ok(_) => self.start_writing(storing),
        }
    }

    /// Answers once the writing is through.
    pub fn written(&mut self, result: Result<bool, Status>) -> (a: PutAction)
        requires
            old(self).phase is Writing,
        ensures
            final(self).same_object(old(self)),
            final(self).phase is Done,
            match result {
                Err(e) => a == PutAction::Answer(Err::<PutResponse, Status>(e)),
                Ok(inserted) => answers(a, inserted || !old(self).phase->tells),
            },
    {
        let tells: bool = match self.phase {
            PutPhase::Writing { tells } => tells,
            _ => true,
        };
        self.phase = PutPhase::Done;
        match result {
            Err(e) => PutAction::Answer(Err(e)),
            Ok(inserted) => PutAction::Answer(Ok(put_reply(inserted || !tells))),
        }
    }
}

} // verus!
