//! What the two ends of a stream, and whoever waits for an answer, can rely on.
use crate::client::{arrived, is_put_chunk, pieces, received};
use crate::distributed::{stripe_size, StreamPut};
use crate::error::{status_of, Code, KVError, Status};
use crate::get_flow::{gives, is_miss, sends, sends_described, GetAction};
use crate::handlers::{streams_directly, DataReadResponse, PutChunk};
use crate::key::KeyView;
use crate::metadata::MetaView;
use crate::payload::{concat, payload, payloads};
use crate::pb::{ObjectDescriptor, PlacementDescriptor};
use crate::placement::{descriptor_of, placement_of, KVServiceContext};
use crate::put_flow::{answers, writing, PutAction, PutFlow, Storing};
use crate::streaming;
use crate::streaming::{
    carries, chunk_data, object_chunks, sub_chunks, DataChunk, DescriptorDataChunk, SUB_CHUNK,
};
use crate::stripes;
use crate::stripes::stripe_count;
use prost::bytes::Bytes;
use vstd::prelude::*;

verus! {

/// An object is cut into pieces of the size asked for; only the last may be smaller, and none is
/// empty but the one piece of an empty object. Where the size asked for is zero, each piece is a
/// byte.
pub proof fn pieces_are_as_large_as_asked(data: Seq<u8>, chunk_size: nat, i: int)
    requires
        0 <= i < pieces(data, chunk_size).len(),
    ensures
        ({
            let p = pieces(data, chunk_size);
            let size = if chunk_size == 0 {
                1
            } else {
                chunk_size
            };
            &&& i + 1 < p.len() ==> p[i].len() == size
            &&& p[i].len() <= size
            &&& data.len() > 0 ==> p[i].len() > 0
            &&& data.len() == 0 ==> p.len() == 1
            &&& data.len() > 0 ==> (p.len() - 1) * size < data.len() <= p.len() * size
        }),
{
    if data.len() > 0 {
        let size = if chunk_size == 0 {
            1
        } else {
            chunk_size
        };
        let n = stripe_count(data.len(), size);
        stripes::lemma_stripe_bounds(data.len(), size, i);
        stripes::lemma_stripe_bounds(data.len(), size, n - 1);
        assert((i + 1) * size == i * size + size) by (nonlinear_arith);
        assert(n * size == (n - 1) * size + size) by (nonlinear_arith);
    }
}

/// A segment goes out in chunks of one size; only the last may be smaller. Each chunk says where
/// in the object it begins.
pub proof fn segments_go_out_in_full_chunks(seg: Seq<u8>, base: int, i: int)
    requires
        0 <= i < sub_chunks(seg, base).len(),
    ensures
        ({
            let c = sub_chunks(seg, base);
            &&& i + 1 < c.len() ==> c[i].data.len() == 4194304
            &&& 0 < c[i].data.len() <= 4194304
            &&& i == 0 ==> c[i].offset == base
            &&& i + 1 < c.len() ==> c[i + 1].offset == c[i].offset + c[i].data.len()
            &&& i + 1 == c.len() ==> c[i].offset + c[i].data.len() == base + seg.len()
            &&& c[i].data == seg.subrange(c[i].offset - base, c[i].offset - base + c[i].data.len())
        }),
        seg.len() == 0 ==> sub_chunks(seg, base).len() == 0,
{
    let n = stripe_count(seg.len(), SUB_CHUNK as nat);
    stripes::lemma_stripe_bounds(seg.len(), SUB_CHUNK as nat, i);
    if i + 1 < n {
        stripes::lemma_stripe_bounds(seg.len(), SUB_CHUNK as nat, i + 1);
    }
    assert((i + 1) * SUB_CHUNK == i * SUB_CHUNK + SUB_CHUNK) by (nonlinear_arith);
}

/// The bytes of chunks, one after another.
pub open spec fn chunk_bytes(list: Seq<DataChunk>) -> Seq<u8> {
    concat(list.map_values(|c: DataChunk| payload(c.data)))
}

/// Whoever receives an object gets its bytes in their order. Each chunk says how large the object
/// is and how many bytes came before it, and only the last says that it is the last.
pub proof fn receiver_can_place_every_chunk(list: Seq<DataChunk>, segs: Seq<Seq<u8>>, i: int)
    requires
        carries(list, object_chunks(segs), concat(segs).len() as int),
        0 <= i < list.len(),
    ensures
        chunk_bytes(list) == concat(segs),
        list[i].total_size == concat(segs).len(),
        list[i].offset == chunk_bytes(list.take(i)).len(),
        list[i].is_last <==> i + 1 == list.len(),
        payload(list[i].data).len() > 0,
{
    let c = object_chunks(segs);
    streaming::stream_carries_the_object(segs);
    assert(list[i].says(c[i], concat(segs).len() as int, i + 1 == list.len()));
    assert(list.map_values(|c: DataChunk| payload(c.data)) =~= chunk_data(c)) by {
        assert forall|k: int| 0 <= k < list.len() implies payload(#[trigger] list[k].data)
            == c[k].data by {
            assert(list[k].says(c[k], concat(segs).len() as int, k + 1 == list.len()));
        }
    }
    assert(list.take(i).map_values(|c: DataChunk| payload(c.data)) =~= chunk_data(c.take(i))) by {
        assert forall|k: int| 0 <= k < i implies payload(#[trigger] list[k].data) == c[k].data by {
            assert(list[k].says(c[k], concat(segs).len() as int, k + 1 == list.len()));
        }
    }
    assert(c[i].offset == concat(chunk_data(c.take(i))).len());
}

/// Nothing is read of a stream after the chunk that says it is the last: neither bytes nor a
/// failure that follow it.
pub proof fn nothing_is_read_after_the_last_chunk(
    before: Seq<DataChunk>,
    last: DataChunk,
    after: Seq<Result<DataChunk, Status>>,
)
    requires
        forall|i: int| 0 <= i < before.len() ==> !(#[trigger] before[i]).is_last,
        last.is_last,
    ensures
        received(arrived(before).push(Ok(last)) + after) == Ok::<Seq<Seq<u8>>, Status>(
            before.push(last).map_values(|c: DataChunk| payload(c.data)),
        ),
    decreases before.len(),
{
    let s = arrived(before).push(Ok(last)) + after;
    let all = before.push(last).map_values(|c: DataChunk| payload(c.data));
    if before.len() == 0 {
        assert(s[0] == Ok::<DataChunk, Status>(last));
        assert(all =~= seq![payload(last.data)]);
    } else {
        let rest = before.skip(1);
        nothing_is_read_after_the_last_chunk(rest, last, after);
        assert(s[0] == Ok::<DataChunk, Status>(before[0]));
        assert(s.skip(1) =~= arrived(rest).push(Ok(last)) + after);
        assert(all =~= seq![payload(before[0].data)] + rest.push(last).map_values(
            |c: DataChunk| payload(c.data),
        ));
    }
}

/// A stream that is described carries the object, and its first chunk, and no other, has the
/// descriptor and the placement that a lookup would give.
pub proof fn description_comes_first(
    c: Seq<DescriptorDataChunk>,
    ctx: &KVServiceContext,
    key: KeyView,
    meta: MetaView,
    segs: Seq<Seq<u8>>,
    i: int,
)
    requires
        sends_described(c, ctx, key, meta, segs),
        0 <= i < c.len(),
    ensures
        concat(c.map_values(|x: DescriptorDataChunk| payload(x.data))) == concat(segs),
        c[i].total_size == concat(segs).len(),
        c[i].is_last <==> i + 1 == c.len(),
        i == 0 ==> c[i].offset == 0,
        i == 0 ==> c[i].descriptor is Some && c[i].descriptor->0@ == descriptor_of(key, meta),
        i == 0 ==> c[i].placement is Some && c[i].placement->0@ == placement_of(ctx, key, meta),
        i > 0 ==> c[i].descriptor is None && c[i].placement is None,
{
    let total = concat(segs).len() as int;
    let (plain, d, p) = choose|
        plain: Seq<DataChunk>,
        d: ObjectDescriptor,
        p: PlacementDescriptor,
    |
        #![trigger carries(plain, object_chunks(segs), concat(segs).len() as int), d@, p@]
        carries(plain, object_chunks(segs), concat(segs).len() as int) && d@ == descriptor_of(
            key,
            meta,
        ) && p@ == placement_of(ctx, key, meta) && c.len() == plain.len() && forall|i: int|
            0 <= i < c.len() ==> (#[trigger] c[i]).says(plain[i], i == 0, d, p);
    receiver_can_place_every_chunk(plain, segs, i);
    assert(c[i].says(plain[i], i == 0, d, p));
    assert(plain[i].says(object_chunks(segs)[i], total, i + 1 == plain.len()));
    assert(c.map_values(|x: DescriptorDataChunk| payload(x.data)) =~= plain.map_values(
        |x: DataChunk| payload(x.data),
    )) by {
        assert forall|k: int| 0 <= k < c.len() implies payload(#[trigger] c[k].data) == payload(
            plain[k].data,
        ) by {
            assert(c[k].says(plain[k], k == 0, d, p));
        }
    }
    if i == 0 {
        assert(plain.take(0).map_values(|x: DataChunk| payload(x.data)) =~= Seq::empty());
        assert(chunk_bytes(plain.take(0)).len() == 0);
    }
}

/// An answer to a read is either an object or a miss, and never both; two answers that give the
/// same object give the same bytes.
pub proof fn reads_are_hits_or_misses(
    r: DataReadResponse,
    ctx: &KVServiceContext,
    key: KeyView,
    meta: MetaView,
    a: Seq<u8>,
    b: Seq<u8>,
)
    ensures
        gives(r, ctx, key, meta, a) ==> r.found && !is_miss(r),
        is_miss(r) ==> !r.found && r.metadata is None && r.descriptor is None && r.placement is None
            && payload(r.data).len() == 0,
        gives(r, ctx, key, meta, a) && gives(r, ctx, key, meta, b) ==> a == b,
        gives(r, ctx, key, meta, a) ==> payload(r.data) == a,
        gives(r, ctx, key, meta, a) ==> r.descriptor is Some && r.placement is Some && r.metadata
            is Some,
        gives(r, ctx, key, meta, a) ==> r.descriptor->0@ == descriptor_of(key, meta)
            && r.placement->0@ == placement_of(ctx, key, meta),
{
}

/// What a read sends for an object is its bytes.
pub proof fn sent_object_is_the_one_read(a: GetAction, segs: Seq<Seq<u8>>)
    requires
        sends(a, segs),
        concat(segs).len() > 0,
    ensures
        a matches GetAction::Send(c) && chunk_bytes(c@) == concat(segs) && c@.len() > 0
            && c@.last().is_last,
{
    let c = a->Send_0@;
    streaming::stream_carries_the_object(segs);
    if c.len() == 0 {
        assert(object_chunks(segs) =~= Seq::empty());
        assert(chunk_data(object_chunks(segs)) =~= Seq::empty());
        assert(concat(segs).len() == 0);
    }
    receiver_can_place_every_chunk(c, segs, c.len() - 1);
}

/// An answer to a write tells truly whether the object was stored, and says why it was not.
pub proof fn answer_tells_whether_it_was_stored(a: PutAction, x: bool, y: bool)
    ensures
        answers(a, x) && answers(a, y) ==> x == y,
        answers(a, true) ==> a is Answer && a->Answer_0 is Ok && a->Answer_0->Ok_0.success
            && a->Answer_0->Ok_0.message@.len() == 0,
        answers(a, false) ==> a is Answer && a->Answer_0 is Ok && !a->Answer_0->Ok_0.success
            && a->Answer_0->Ok_0.message@ == "already exists"@,
{
}

/// An object that was collected whole is spread over the nodes exactly where the same object,
/// had its size been declared, would have been; otherwise it is stored here as it arrived. What
/// the client asked for is kept either way.
pub proof fn collected_object_goes_where_a_streamed_one_would(
    flow: PutFlow,
    ctx: &KVServiceContext,
    segments: Seq<Bytes>,
    a: PutAction,
)
    requires
        flow.collected(ctx, segments, a),
    ensures
        ({
            let data = concat(payloads(segments));
            if streams_directly(ctx, data.len() as int) {
                &&& a == (PutAction::Lock { look_up: flow.if_not_exists })
                &&& flow.phase is Locking
                &&& flow.phase->Locking_0 is Distributed
                &&& payload(flow.phase->Locking_0->Distributed_0) == data
            } else {
                &&& a is Write
                &&& a->if_absent == flow.if_not_exists
                &&& a->storing is Segments
                &&& concat(payloads(a->storing->Segments_0@)) == data
                &&& flow.phase is Writing
                &&& flow.phase->tells == flow.if_not_exists
            }
        }),
{
}

/// A flow that goes on is about the same object, with the same record and the same condition.
pub proof fn flow_stays_with_its_object(a: PutFlow, b: PutFlow)
    ensures
        a.same_object(&b) <==> a.key == b.key && a.meta == b.meta && a.if_not_exists
            == b.if_not_exists,
{
}

/// Whoever asked for an object to be stored if absent, or streamed it, is told what the writer
/// says; any other write that went through is a success.
pub proof fn conditional_writes_are_told(storing: Storing, if_not_exists: bool)
    ensures
        writing(storing, if_not_exists) is Writing,
        if_not_exists ==> writing(storing, if_not_exists)->tells,
        storing is Streamed ==> writing(storing, if_not_exists)->tells,
        !if_not_exists && !(storing is Streamed) ==> !writing(storing, if_not_exists)->tells,
{
}

/// What is received, or sent out, changes nothing of what is already settled: the locations, the
/// failure, the counts and the sizes.
pub proof fn outcome_is_kept(a: StreamPut, b: StreamPut)
    ensures
        a.same_outcome(&b) ==> a.locations() == b.locations() && a.failure() == b.failure()
            && a.declared() == b.declared() && a.size() == b.size() && a.local_stripes()
            == b.local_stripes() && a.remote_stripes() == b.remote_stripes(),
{
}

/// Stripes are as large as configured, and never empty.
pub proof fn stripes_are_as_large_as_configured(ctx: &KVServiceContext)
    ensures
        stripe_size(ctx) > 0,
        ctx.config.storage.striping_chunk_size > 0 ==> stripe_size(ctx)
            == ctx.config.storage.striping_chunk_size,
        ctx.config.storage.striping_chunk_size == 0 ==> stripe_size(ctx) == 1,
{
}

/// An error that the client can act on keeps its kind and its words; every other one is internal
/// and says in front of its words what failed.
pub proof fn client_is_told_what_failed(e: KVError)
    ensures
        status_of(e).0 == Code::NotFound <==> e is NotFound,
        status_of(e).0 == Code::AlreadyExists <==> e is AlreadyExists,
        status_of(e).0 == Code::InvalidArgument <==> e is InvalidArgument,
        status_of(e).0 == Code::Internal <==> !(e is NotFound || e is AlreadyExists
            || e is InvalidArgument),
        e is NotFound || e is AlreadyExists || e is InvalidArgument ==> status_of(e).1 == e.detail(),
        status_of(e).0 == Code::Internal ==> status_of(e).1 == e.prefix() + e.detail(),
{
}

/// A written stream names the object in its first chunk, and asks for nothing in the others.
pub proof fn first_chunk_names_the_object(
    c: PutChunk,
    namespace: Seq<char>,
    object_key: Seq<char>,
    segs: Seq<Seq<u8>>,
    i: int,
)
    requires
        is_put_chunk(c, namespace, object_key, segs, i),
    ensures
        i == 0 ==> c.key is Some && c.key->0.namespace@ == namespace && c.key->0.object_key@
            == object_key,
        i != 0 ==> c.key is None,
        payload(c.data) == segs[i],
        c.metadata is None && c.options is None,
        i == 0 && concat(segs).len() <= isize::MAX ==> c.total_size == concat(segs).len(),
        i != 0 ==> c.total_size == 0,
        c.is_last <==> i + 1 == segs.len(),
{
}

/// A stream that ends before its last chunk gives what arrived of it.
pub proof fn unfinished_stream_gives_what_arrived(stream: Seq<DataChunk>)
    requires
        forall|i: int| 0 <= i < stream.len() ==> !(#[trigger] stream[i]).is_last,
    ensures
        received(arrived(stream)) == Ok::<Seq<Seq<u8>>, Status>(
            stream.map_values(|c: DataChunk| payload(c.data)),
        ),
    decreases stream.len(),
{
    let all = stream.map_values(|c: DataChunk| payload(c.data));
    if stream.len() == 0 {
        assert(all =~= Seq::empty());
    } else {
        let rest = stream.skip(1);
        unfinished_stream_gives_what_arrived(rest);
        assert(arrived(stream)[0] == Ok::<DataChunk, Status>(stream[0]));
        assert(arrived(stream).skip(1) =~= arrived(rest));
        assert(all =~= seq![payload(stream[0].data)] + rest.map_values(
            |c: DataChunk| payload(c.data),
        ));
    }
}

} // verus!
