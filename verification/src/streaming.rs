//! Answers that are sent as a stream of small chunks.
use crate::payload;
use crate::payload::{concat, payload, payloads};
use crate::pb::{ObjectDescriptor, PlacementDescriptor};
use crate::stripes;
use crate::stripes::{stripe_bytes, stripe_count, stripes_of};
use prost::bytes::Bytes;
use vstd::prelude::*;

verus! {

/// The most bytes that one chunk of a stream holds: 4 MiB.
pub const SUB_CHUNK: u64 = 4194304;

/// How many stripes are read ahead of the one being sent.
pub const READ_AHEAD: usize = 4;

/// One chunk of a streamed object.
pub struct DataChunk {
    pub data: Bytes,
    /// Position of the first byte in the object.
    pub offset: i64,
    /// Size of the object.
    pub total_size: i64,
    pub is_last: bool,
}

/// What one chunk of a stream says.
#[verifier::ext_equal]
pub struct ChunkModel {
    pub data: Seq<u8>,
    pub offset: int,
}

impl DataChunk {
    pub open spec fn says(self, m: ChunkModel, total: int, last: bool) -> bool {
        payload(self.data) == m.data && self.offset == m.offset && self.total_size == total
            && self.is_last == last
    }
}

/// The chunks of one segment that starts at `base` of the object.
pub open spec fn sub_chunks(seg: Seq<u8>, base: int) -> Seq<ChunkModel> {
    Seq::new(
        stripe_count(seg.len(), SUB_CHUNK as nat),
        |i: int|
            ChunkModel {
                data: stripe_bytes(seg, SUB_CHUNK as nat, i),
                offset: base + i * SUB_CHUNK,
            },
    )
}

/// The chunks of an object that consists of these segments.
pub open spec fn object_chunks(segs: Seq<Seq<u8>>) -> Seq<ChunkModel>
    decreases segs.len(),
{
    if segs.len() == 0 {
        Seq::empty()
    } else {
        object_chunks(segs.drop_last()) + sub_chunks(
            segs.last(),
            concat(segs.drop_last()).len() as int,
        )
    }
}

/// The data of a list of chunks.
pub open spec fn chunk_data(c: Seq<ChunkModel>) -> Seq<Seq<u8>> {
    c.map_values(|m: ChunkModel| m.data)
}

/// Every chunk starts where the ones before it end, counted from `base`.
pub open spec fn contiguous(c: Seq<ChunkModel>, base: int) -> bool {
    forall|i: int|
        0 <= i < c.len() ==> (#[trigger] c[i]).offset == base + concat(chunk_data(c.take(i))).len()
}

proof fn lemma_sub_chunks(seg: Seq<u8>, base: int)
    ensures
        concat(chunk_data(sub_chunks(seg, base))) == seg,
        contiguous(sub_chunks(seg, base), base),
        forall|i: int|
            0 <= i < sub_chunks(seg, base).len() ==> 1 <= (#[trigger] sub_chunks(
                seg,
                base,
            )[i]).data.len() <= SUB_CHUNK,
{
    let c = sub_chunks(seg, base);
    let size = SUB_CHUNK as nat;
    assert(chunk_data(c) =~= stripes_of(seg, size));
    stripes::stripes_make_up_the_object(seg, size);
    assert forall|i: int| 0 <= i < c.len() implies (#[trigger] c[i]).offset == base + concat(
        chunk_data(c.take(i)),
    ).len() && 1 <= c[i].data.len() <= SUB_CHUNK by {
        stripes::lemma_stripe_bounds(seg.len(), size, i);
        assert(chunk_data(c.take(i)) =~= stripes_of(seg, size).take(i));
        stripes::lemma_stripes_prefix(seg, size, i as nat);
    }
}

proof fn lemma_contiguous_append(a: Seq<ChunkModel>, b: Seq<ChunkModel>, base: int)
    requires
        contiguous(a, base),
        contiguous(b, base + concat(chunk_data(a)).len()),
    ensures
        contiguous(a + b, base),
        concat(chunk_data(a + b)) == concat(chunk_data(a)) + concat(chunk_data(b)),
{
    assert(chunk_data(a + b) =~= chunk_data(a) + chunk_data(b));
    payload::lemma_concat_append(chunk_data(a), chunk_data(b));
    let c = a + b;
    assert forall|i: int| 0 <= i < c.len() implies (#[trigger] c[i]).offset == base + concat(
        chunk_data(c.take(i)),
    ).len() by {
        if i < a.len() {
            assert(c.take(i) =~= a.take(i));
            assert(a[i].offset == base + concat(chunk_data(a.take(i))).len());
        } else {
            let k = i - a.len();
            assert(c.take(i) =~= a + b.take(k));
            assert(chunk_data(a + b.take(k)) =~= chunk_data(a) + chunk_data(b.take(k)));
            payload::lemma_concat_append(chunk_data(a), chunk_data(b.take(k)));
            assert(b[k].offset == base + concat(chunk_data(a)).len() + concat(
                chunk_data(b.take(k)),
            ).len());
        }
    }
}

/// The chunks of a stream, joined, are the object; each starts where the ones before it end;
/// none is empty and none exceeds the chunk size.
pub proof fn stream_carries_the_object(segs: Seq<Seq<u8>>)
    ensures
        concat(chunk_data(object_chunks(segs))) == concat(segs),
        contiguous(object_chunks(segs), 0),
        forall|i: int|
            0 <= i < object_chunks(segs).len() ==> 1 <= (#[trigger] object_chunks(
                segs,
            )[i]).data.len() <= SUB_CHUNK,
    decreases segs.len(),
{
    if segs.len() == 0 {
        assert(chunk_data(object_chunks(segs)) =~= Seq::<Seq<u8>>::empty());
    } else {
        let front = segs.drop_last();
        let base = concat(front).len() as int;
        stream_carries_the_object(front);
        lemma_sub_chunks(segs.last(), base);
        lemma_contiguous_append(object_chunks(front), sub_chunks(segs.last(), base), 0);
        let a = object_chunks(front);
        let b = sub_chunks(segs.last(), base);
        assert forall|i: int| 0 <= i < (a + b).len() implies 1 <= (#[trigger] (a
            + b)[i]).data.len() <= SUB_CHUNK by {
            if i < a.len() {
                assert((a + b)[i] == a[i]);
            } else {
                assert((a + b)[i] == b[i - a.len()]);
            }
        }
    }
}

/// The list carries these chunks; only the last is marked as such.
pub open spec fn carries(list: Seq<DataChunk>, c: Seq<ChunkModel>, total: int) -> bool {
    list.len() == c.len() && forall|i: int|
        0 <= i < list.len() ==> (#[trigger] list[i]).says(c[i], total, i + 1 == list.len())
}

/// Appends the chunks of one segment, none marked as the last.
fn push_sub_chunks(out: &mut Vec<DataChunk>, seg: &Bytes, base: i64, total: i64)
    requires
        0 <= base,
        base + payload(*seg).len() <= i64::MAX,
    ensures
        final(out)@.len() == old(out)@.len() + sub_chunks(payload(*seg), base as int).len(),
        forall|i: int| 0 <= i < old(out)@.len() ==> final(out)@[i] == old(out)@[i],
        forall|i: int|
            old(out)@.len() <= i < final(out)@.len() ==> (#[trigger] final(out)@[i]).says(
                sub_chunks(payload(*seg), base as int)[i - old(out)@.len()],
                total as int,
                false,
            ),
{
    let ghost before = out@;
    let ghost all = payload(*seg);
    let pieces = stripes::split(seg, SUB_CHUNK);
    proof {
        assert(payloads(pieces@).len() == pieces@.len());
    }
    let mut i: usize = 0;
    while i < pieces.len()
        invariant
            i <= pieces.len(),
            all == payload(*seg),
            payloads(pieces@) == stripes_of(all, SUB_CHUNK as nat),
            pieces@.len() == stripe_count(all.len(), SUB_CHUNK as nat),
            0 <= base,
            base + all.len() <= i64::MAX,
            out@.len() == before.len() + i,
            forall|k: int| 0 <= k < before.len() ==> out@[k] == before[k],
            forall|k: int|
                before.len() <= k < out@.len() ==> (#[trigger] out@[k]).says(
                    sub_chunks(all, base as int)[k - before.len()],
                    total as int,
                    false,
                ),
        decreases pieces.len() - i,
    {
        proof {
            stripes::lemma_stripe_bounds(all.len(), SUB_CHUNK as nat, i as int);
            assert(payloads(pieces@)[i as int] == payload(pieces@[i as int]));
        }
        let offset: i64 = base + (i as i64 * 4194304);
        out.push(DataChunk { data: pieces[i].clone(), offset, total_size: total, is_last: false });
        i = i + 1;
    }
}

fn mark_last(chunks: &mut Vec<DataChunk>)
    ensures
        final(chunks)@.len() == old(chunks)@.len(),
        forall|i: int|
            0 <= i < old(chunks)@.len() ==> {
                &&& payload((#[trigger] final(chunks)@[i]).data) == payload(old(chunks)@[i].data)
                &&& final(chunks)@[i].offset == old(chunks)@[i].offset
                &&& final(chunks)@[i].total_size == old(chunks)@[i].total_size
                &&& final(chunks)@[i].is_last == (i + 1 == old(chunks)@.len()
                    || old(chunks)@[i].is_last)
            },
{
    let n: usize = chunks.len();
    if n > 0 {
        let last = DataChunk {
            data: chunks[n - 1].data.clone(),
            offset: chunks[n - 1].offset,
            total_size: chunks[n - 1].total_size,
            is_last: true,
        };
        chunks.set(n - 1, last);
    }
}

/// An object as a stream of chunks.
pub fn data_chunks(segments: &Vec<Bytes>) -> (r: Vec<DataChunk>)
    requires
        concat(payloads(segments@)).len() <= i64::MAX,
        concat(payloads(segments@)).len() <= usize::MAX,
    ensures
        carries(
            r@,
            object_chunks(payloads(segments@)),
            concat(payloads(segments@)).len() as int,
        ),
{
    let ghost segs = payloads(segments@);
    let total: i64 = payload::total_len(segments) as i64;
    let mut out: Vec<DataChunk> = Vec::new();
    let mut base: i64 = 0;
    let mut i: usize = 0;
    while i < segments.len()
        invariant
            i <= segments.len(),
            segs == payloads(segments@),
            concat(segs).len() <= i64::MAX,
            total == concat(segs).len(),
            base == concat(segs.take(i as int)).len(),
            out@.len() == object_chunks(segs.take(i as int)).len(),
            forall|k: int|
                0 <= k < out@.len() ==> (#[trigger] out@[k]).says(
                    object_chunks(segs.take(i as int))[k],
                    total as int,
                    false,
                ),
        decreases segments.len() - i,
    {
        let ghost before = out@;
        let ghost front = segs.take(i as int);
        proof {
            assert(segs.take(i + 1).drop_last() =~= front);
            assert(segs[i as int] == payload(segments@[i as int]));
            payload::lemma_concat_prefix_len(segs, i + 1);
        }
        push_sub_chunks(&mut out, &segments[i], base, total);
        base = base + segments[i].len() as i64;
        i = i + 1;
        proof {
            let whole = object_chunks(segs.take(i as int));
            assert(whole =~= object_chunks(front) + sub_chunks(
                segs[i - 1],
                concat(front).len() as int,
            ));
            assert forall|k: int| 0 <= k < out@.len() implies (#[trigger] out@[k]).says(
                whole[k],
                total as int,
                false,
            ) by {
                if k < before.len() {
                    assert(before[k].says(object_chunks(front)[k], total as int, false));
                }
            }
        }
    }
    proof {
        assert(segs.take(i as int) =~= segs);
    }
    let ghost before = out@;
    mark_last(&mut out);
    proof {
        assert forall|k: int| 0 <= k < out@.len() implies (#[trigger] out@[k]).says(
            object_chunks(segs)[k],
            total as int,
            k + 1 == out@.len(),
        ) by {
            assert(before[k].says(object_chunks(segs)[k], total as int, false));
        }
    }
    out
}

/// The chunks of one stripe of an object that is sent stripe by stripe. Only the last chunk of
/// the last stripe is marked as the last.
pub fn stripe_chunks(
    seg: &Bytes,
    stripe: usize,
    stripe_total: usize,
    chunk_size: u64,
    total_size: u64,
) -> (r: Vec<DataChunk>)
    requires
        stripe < stripe_total,
        stripe * chunk_size + payload(*seg).len() <= i64::MAX,
    ensures
        r@.len() == sub_chunks(payload(*seg), stripe * chunk_size).len(),
        forall|i: int|
            0 <= i < r@.len() ==> (#[trigger] r@[i]).says(
                sub_chunks(payload(*seg), stripe * chunk_size)[i],
                total_size as i64 as int,
                stripe + 1 == stripe_total && i + 1 == r@.len(),
            ),
{
    proof {
        assert(stripe * chunk_size >= 0) by (nonlinear_arith);
    }
    let base: i64 = (stripe as u64 * chunk_size) as i64;
    let mut out: Vec<DataChunk> = Vec::new();
    push_sub_chunks(&mut out, seg, base, total_size as i64);
    if stripe + 1 == stripe_total {
        mark_last(&mut out);
    }
    out
}

/// Sending an object stripe by stripe gives the same chunks, in the same order, as sending it
/// from memory: those of stripe `i` start at `i` times the stripe size.
pub proof fn stripe_by_stripe_is_the_same_stream(all: Seq<u8>, size: nat, n: nat)
    requires
        size > 0,
        n <= stripe_count(all.len(), size),
    ensures
        object_chunks(stripes_of(all, size).take(n as int)) == stripe_by_stripe(all, size, n),
    decreases n,
{
    let s = stripes_of(all, size);
    if n > 0 {
        let m = (n - 1) as nat;
        stripe_by_stripe_is_the_same_stream(all, size, m);
        assert(s.take(n as int).drop_last() =~= s.take(m as int));
        stripes::lemma_stripes_prefix(all, size, m);
        stripes::lemma_stripe_bounds(all.len(), size, m as int);
    }
}

/// The chunks of the first `n` stripes, each at its place in the object.
pub open spec fn stripe_by_stripe(all: Seq<u8>, size: nat, n: nat) -> Seq<ChunkModel>
    decreases n,
{
    if n == 0 {
        Seq::empty()
    } else {
        stripe_by_stripe(all, size, (n - 1) as nat) + sub_chunks(
            stripe_bytes(all, size, n - 1),
            (n - 1) * size,
        )
    }
}

/// A stored stripe as a stream of chunks; `offset` and `length` are the stripe's own.
pub fn placement_chunks(data: &Bytes, offset: u64, length: u64) -> (r: Vec<DataChunk>)
    requires
        offset + payload(*data).len() <= i64::MAX,
    ensures
        carries(r@, sub_chunks(payload(*data), offset as int), length as i64 as int),
{
    let mut out: Vec<DataChunk> = Vec::new();
    push_sub_chunks(&mut out, data, offset as i64, length as i64);
    mark_last(&mut out);
    out
}

/// One chunk of an object that was asked for by descriptor. The first carries the descriptors.
pub struct DescriptorDataChunk {
    pub data: Bytes,
    pub offset: i64,
    pub total_size: i64,
    pub is_last: bool,
    pub descriptor: Option<ObjectDescriptor>,
    pub placement: Option<PlacementDescriptor>,
}

impl DescriptorDataChunk {
    /// The chunk carries what `c` carries, and the descriptors where it is the first.
    pub open spec fn says(
        self,
        c: DataChunk,
        first: bool,
        descriptor: ObjectDescriptor,
        placement: PlacementDescriptor,
    ) -> bool {
        &&& payload(self.data) == payload(c.data)
        &&& self.offset == c.offset
        &&& self.total_size == c.total_size
        &&& self.is_last == c.is_last
        &&& match self.descriptor {
            Some(d) => first && d@ == descriptor@,
            None => !first,
        }
        &&& match self.placement {
            Some(p) => first && p@ == placement@,
            None => !first,
        }
    }
}

/// Puts the descriptors on the first chunk of a stream.
pub fn with_descriptors(
    chunks: &Vec<DataChunk>,
    descriptor: &ObjectDescriptor,
    placement: &PlacementDescriptor,
) -> (r: Vec<DescriptorDataChunk>)
    ensures
        r@.len() == chunks@.len(),
        forall|i: int|
            0 <= i < r@.len() ==> (#[trigger] r@[i]).says(
                chunks@[i],
                i == 0,
                *descriptor,
                *placement,
            ),
{
    let mut out: Vec<DescriptorDataChunk> = Vec::new();
    let mut i: usize = 0;
    while i < chunks.len()
        invariant
            i <= chunks.len(),
            out.len() == i,
            forall|k: int|
                0 <= k < i ==> (#[trigger] out@[k]).says(
                    chunks@[k],
                    k == 0,
                    *descriptor,
                    *placement,
                ),
        decreases chunks.len() - i,
    {
        let c = &chunks[i];
        let d = if i == 0 {
            Some(descriptor.clone())
        } else {
            None
        };
        let p = if i == 0 {
            Some(placement.clone())
        } else {
            None
        };
        out.push(
            DescriptorDataChunk {
                data: c.data.clone(),
                offset: c.offset,
                total_size: c.total_size,
                is_last: c.is_last,
                descriptor: d,
                placement: p,
            },
        );
        i = i + 1;
    }
    out
}

/// What the sender of a striped object does next.
#[derive(Debug, Clone, Copy, PartialEq, Eq, Structural)]
pub enum ReadStep {
    /// Start reading this stripe.
    Read(usize),
    /// Wait for the earliest read that was started, which is of this stripe, and send it.
    Send(usize),
    /// Every stripe was sent.
    Done,
}

/// Reads the stripes of an object in order, a few ahead of the one being sent.
pub struct ReadPipeline {
    stripe_count: usize,
    next_read: usize,
    next_send: usize,
}

impl ReadPipeline {
    pub closed spec fn stripe_count(&self) -> nat {
        self.stripe_count as nat
    }

    /// Stripes whose reading was started.
    pub closed spec fn started(&self) -> nat {
        self.next_read as nat
    }

    /// Stripes that were sent.
    pub closed spec fn sent(&self) -> nat {
        self.next_send as nat
    }

    /// No stripe is sent before it is read, and never more than a few reads are under way.
    pub open spec fn wf(&self) -> bool {
        self.sent() <= self.started() <= self.stripe_count() && self.started() - self.sent()
            <= READ_AHEAD
    }

    pub fn new(stripe_count: usize) -> (r: ReadPipeline)
        ensures
            r.wf(),
            r.stripe_count() == stripe_count,
            r.started() == 0,
            r.sent() == 0,
    {
        ReadPipeline { stripe_count, next_read: 0, next_send: 0 }
    }

    /// Reads are started in order as long as there is room; otherwise the earliest is sent.
    pub fn step(&mut self) -> (r: ReadStep)
        requires
            old(self).wf(),
        ensures
            final(self).wf(),
            final(self).stripe_count() == old(self).stripe_count(),
            match r {
                ReadStep::Read(i) => {
                    &&& i == old(self).started()
                    &&& i < old(self).stripe_count()
                    &&& old(self).sent() < old(self).stripe_count()
                    &&& old(self).started() - old(self).sent() < READ_AHEAD
                    &&& final(self).started() == old(self).started() + 1
                    &&& final(self).sent() == old(self).sent()
                },
                ReadStep::Send(i) => {
                    &&& i == old(self).sent()
                    &&& i < old(self).started()
                    &&& old(self).started() == old(self).stripe_count() || old(self).started()
                        - old(self).sent() == READ_AHEAD
                    &&& final(self).sent() == old(self).sent() + 1
                    &&& final(self).started() == old(self).started()
                },
                ReadStep::Done => {
                    &&& old(self).sent() == old(self).stripe_count()
                    &&& final(self).sent() == old(self).sent()
                    &&& final(self).started() == old(self).started()
                },
            },
    {
        if self.next_send == self.stripe_count {
            return ReadStep::Done;
        }
        if self.next_read < self.stripe_count && self.next_read - self.next_send < READ_AHEAD {
            let i: usize = self.next_read;
            self.next_read = i + 1;
            return ReadStep::Read(i);
        }
        let i: usize = self.next_send;
        self.next_send = i + 1;
        ReadStep::Send(i)
    }
}

} // verus!
