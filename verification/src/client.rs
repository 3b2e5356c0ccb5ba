//! The client's side: objects cut into streams of chunks, and streams put together again.
use crate::error::{Code, Status};
use crate::handlers::PutChunk;
use crate::payload;
use crate::payload::{concat, payload, payloads};
use crate::pb;
use crate::streaming;
use crate::streaming::{carries, chunk_data, object_chunks, DataChunk};
use crate::stripes;
use crate::stripes::stripes_of;
use prost::bytes::Bytes;
use vstd::prelude::*;

verus! {

/// The key of an object, as it is sent.
pub fn make_key(namespace: &str, object_key: &str) -> (r: pb::ObjectKey)
    ensures
        r.namespace@ == namespace@,
        r.object_key@ == object_key@,
{
    pb::ObjectKey { namespace: namespace.to_owned(), object_key: object_key.to_owned() }
}

/// The pieces in which an object is streamed: of `chunk_size` bytes each, at least one byte and
/// the last possibly shorter; an empty object is one empty piece.
pub open spec fn pieces(data: Seq<u8>, chunk_size: nat) -> Seq<Seq<u8>> {
    if data.len() == 0 {
        seq![data]
    } else if chunk_size == 0 {
        stripes_of(data, 1)
    } else {
        stripes_of(data, chunk_size)
    }
}

/// Cuts an object into the pieces in which it is streamed.
pub fn cut_for_stream(data: Vec<u8>, chunk_size: usize) -> (r: Vec<Bytes>)
    ensures
        payloads(r@) == pieces(data@, chunk_size as nat),
{
    let ghost all = data@;
    let empty: bool = data.len() == 0;
    let big = payload::from_vec(data);
    if empty {
        let mut out: Vec<Bytes> = Vec::new();
        out.push(big);
        proof {
            assert(payloads(out@) =~= seq![all]);
        }
        return out;
    }
    let size: usize = if chunk_size == 0 {
        1
    } else {
        chunk_size
    };
    stripes::split(&big, size as u64)
}

/// The pieces of an object, joined, are the object.
pub proof fn pieces_make_up_the_object(data: Seq<u8>, chunk_size: nat)
    ensures
        concat(pieces(data, chunk_size)) == data,
        pieces(data, chunk_size).len() > 0,
{
    if data.len() == 0 {
        reveal_with_fuel(concat, 2);
        assert(concat(pieces(data, chunk_size)) =~= data);
    } else {
        let size = if chunk_size == 0 {
            1
        } else {
            chunk_size
        };
        stripes::stripes_make_up_the_object(data, size);
        if stripes_of(data, size).len() == 0 {
            assert(concat(stripes_of(data, size)) =~= Seq::<u8>::empty());
        }
    }
}

/// One chunk of the stream in which segments are written. The first carries the key and the
/// size of the object, the last is marked as such, and each says where it starts.
pub open spec fn is_put_chunk(
    c: PutChunk,
    namespace: Seq<char>,
    object_key: Seq<char>,
    segs: Seq<Seq<u8>>,
    i: int,
) -> bool {
    &&& (c.key is Some) == (i == 0)
    &&& i == 0 ==> c.key->0.namespace@ == namespace && c.key->0.object_key@ == object_key
    &&& payload(c.data) == segs[i]
    &&& c.offset == (concat(segs.take(i)).len() as usize) as i64
    &&& c.is_last == (i + 1 == segs.len())
    &&& c.metadata is None
    &&& c.options is None
    &&& c.total_size == (if i == 0 {
        (concat(segs).len() as usize) as i64
    } else {
        0
    })
}

/// The stream in which segments are written as one object.
pub fn put_chunks(namespace: &str, object_key: &str, segments: Vec<Bytes>) -> (r: Vec<PutChunk>)
    requires
        concat(payloads(segments@)).len() <= usize::MAX,
    ensures
        r@.len() == segments@.len(),
        forall|i: int|
            0 <= i < r@.len() ==> is_put_chunk(
                #[trigger] r@[i],
                namespace@,
                object_key@,
                payloads(segments@),
                i,
            ),
{
    let ghost segs = payloads(segments@);
    let total: usize = payload::total_len(&segments);
    let n: usize = segments.len();
    let mut out: Vec<PutChunk> = Vec::new();
    let mut offset: usize = 0;
    let mut i: usize = 0;
    while i < n
        invariant
            i <= n,
            n == segments.len(),
            segs == payloads(segments@),
            concat(segs).len() <= usize::MAX,
            total == concat(segs).len(),
            offset == concat(segs.take(i as int)).len(),
            out@.len() == i,
            forall|k: int|
                0 <= k < i ==> is_put_chunk(#[trigger] out@[k], namespace@, object_key@, segs, k),
        decreases n - i,
    {
        proof {
            assert(segs.take(i + 1).drop_last() =~= segs.take(i as int));
            assert(segs[i as int] == payload(segments@[i as int]));
            payload::lemma_concat_prefix_len(segs, i + 1);
        }
        let data = segments[i].clone();
        let len: usize = data.len();
        let key: Option<pb::ObjectKey> = if i == 0 {
            Some(make_key(namespace, object_key))
        } else {
            None
        };
        let total_size: i64 = if i == 0 {
            #[verifier::truncate]
            (total as i64)
        } else {
            0
        };
        let at: i64 = #[verifier::truncate]
        (offset as i64);
        let is_last: bool = i + 1 == n;
        out.push(
            PutChunk { key, data, offset: at, is_last, metadata: None, options: None, total_size },
        );
        offset = offset + len;
        i = i + 1;
    }
    out
}

/// The data of a list of chunks.
pub open spec fn put_data(s: Seq<PutChunk>) -> Seq<Seq<u8>> {
    s.map_values(|c: PutChunk| payload(c.data))
}

/// The chunks of a written stream, joined, are the object; the first names it and declares its
/// size, only the last is marked as such, and each starts where those before it end. A buffer
/// has at most `isize::MAX` bytes.
pub proof fn written_stream_carries_the_object(
    chunks: Seq<PutChunk>,
    namespace: Seq<char>,
    object_key: Seq<char>,
    data: Seq<u8>,
    chunk_size: nat,
)
    requires
        data.len() <= isize::MAX,
        chunks.len() == pieces(data, chunk_size).len(),
        forall|i: int|
            0 <= i < chunks.len() ==> is_put_chunk(
                #[trigger] chunks[i],
                namespace,
                object_key,
                pieces(data, chunk_size),
                i,
            ),
    ensures
        concat(put_data(chunks)) == data,
        chunks.len() > 0,
        chunks[0].key is Some,
        chunks.last().is_last,
        chunks[0].total_size == data.len(),
        forall|i: int| 0 <= i < chunks.len() - 1 ==> !(#[trigger] chunks[i]).is_last,
        forall|i: int|
            0 <= i < chunks.len() ==> (#[trigger] chunks[i]).offset
                == concat(put_data(chunks.take(i))).len(),
{
    let p = pieces(data, chunk_size);
    pieces_make_up_the_object(data, chunk_size);
    assert(put_data(chunks) =~= p);
    assert(is_put_chunk(chunks[0], namespace, object_key, p, 0));
    assert(is_put_chunk(chunks[chunks.len() - 1], namespace, object_key, p, chunks.len() - 1));
    assert forall|i: int| 0 <= i < chunks.len() implies (
    #[trigger] chunks[i]).offset == concat(put_data(chunks.take(i))).len() by {
        assert(is_put_chunk(chunks[i], namespace, object_key, p, i));
        assert(put_data(chunks.take(i)) =~= p.take(i));
        payload::lemma_concat_prefix_len(p, i);
    }
}

/// What a client takes in of a stream: the chunks up to the first that is marked
/// as the last, or the failure that came before one.
pub open spec fn received(stream: Seq<Result<DataChunk, Status>>) -> Result<Seq<Seq<u8>>, Status>
    decreases stream.len(),
{
    if stream.len() == 0 {
        Ok(Seq::empty())
    } else {
        match stream[0] {
            Err(status) => Err(status),
            Ok(chunk) => if chunk.is_last {
                Ok(seq![payload(chunk.data)])
            } else {
                match received(stream.skip(1)) {
                    Ok(rest) => Ok(seq![payload(chunk.data)] + rest),
                    Err(status) => Err(status),
                }
            },
        }
    }
}

/// Reads an object from a stream. An object that is not found gives nothing; any other refusal
/// is handed on, and so is a failure before the last chunk.
pub fn receive_stream(
    opened: Result<(), Status>,
    stream: Vec<Result<DataChunk, Status>>,
) -> (r: Result<Option<Vec<Bytes>>, Status>)
    ensures
        match opened {
            Err(status) => if status.code == Code::NotFound {
                r matches Ok(None)
            } else {
                r == Err::<Option<Vec<Bytes>>, Status>(status)
            },
            Ok(_) => match received(stream@) {
                Ok(data) => r matches Ok(Some(segments)) && payloads(segments@) == data,
                Err(status) => r == Err::<Option<Vec<Bytes>>, Status>(status),
            },
        },
{
    match opened {
        Err(status) => if status.code == Code::NotFound {
            Ok(None)
        } else {
            Err(status)
        },
        Ok(_) => match collect(stream) {
            Ok(segments) => Ok(Some(segments)),
            Err(status) => Err(status),
        },
    }
}

fn collect(stream: Vec<Result<DataChunk, Status>>) -> (r: Result<Vec<Bytes>, Status>)
    ensures
        match received(stream@) {
            Ok(data) => r matches Ok(segments) && payloads(segments@) == data,
            Err(status) => r == Err::<Vec<Bytes>, Status>(status),
        },
{
    let ghost all = stream@;
    let mut out: Vec<Bytes> = Vec::new();
    proof {
        assert(all.skip(0) =~= all);
        if received(all) is Ok {
            assert(payloads(out@) + received(all)->Ok_0 =~= received(all)->Ok_0);
        }
    }
    for chunk in it: stream
        invariant
            it.seq() == all,
            match received(all.skip(it.index())) {
                Ok(rest) => received(all) == Ok::<Seq<Seq<u8>>, Status>(payloads(out@) + rest),
                Err(status) => received(all) == Err::<Seq<Seq<u8>>, Status>(status),
            },
    {
        let ghost before = payloads(out@);
        let ghost rest = all.skip(it.index());
        proof {
            assert(rest[0] == chunk);
            assert(rest.skip(1) =~= all.skip(it.index() + 1));
        }
        match chunk {
            Err(status) => {
                return Err(status);
            },
            Ok(chunk) => {
                let is_last: bool = chunk.is_last;
                out.push(chunk.data);
                proof {
                    assert(payloads(out@) =~= before.push(payload(chunk.data)));
                    assert(payloads(out@) =~= before + seq![payload(chunk.data)]);
                }
                if is_last {
                    return Ok(out);
                }
                proof {
                    if received(rest.skip(1)) is Ok {
                        let more = received(rest.skip(1))->Ok_0;
                        assert(payloads(out@) + more =~= before + (seq![payload(chunk.data)]
                            + more));
                    }
                }
            },
        }
    }
    proof {
        assert(payloads(out@) + Seq::<Seq<u8>>::empty() =~= payloads(out@));
    }
    Ok(out)
}

/// The bytes of all segments in one buffer.
pub fn join_segments(segments: &Vec<Bytes>) -> (r: Vec<u8>)
    requires
        concat(payloads(segments@)).len() <= isize::MAX,
    ensures
        r@ == concat(payloads(segments@)),
{
    let mut out: Vec<u8> = Vec::new();
    let mut i: usize = 0;
    while i < segments.len()
        invariant
            i <= segments.len(),
            out@ == concat(payloads(segments@).take(i as int)),
        decreases segments.len() - i,
    {
        proof {
            let p = payloads(segments@);
            assert(p.take(i + 1).drop_last() =~= p.take(i as int));
        }
        out.extend_from_slice(payload::as_slice(&segments[i]));
        i = i + 1;
    }
    proof {
        let p = payloads(segments@);
        assert(p.take(i as int) =~= p);
    }
    out
}

/// What a single read gives back: the data where the object was found.
pub fn found_data(found: bool, data: &Bytes) -> (r: Option<Vec<u8>>)
    ensures
        match r {
            Some(v) => found && v@ == payload(*data),
            None => !found,
        },
{
    if !found {
        return None;
    }
    let mut out: Vec<u8> = Vec::new();
    out.extend_from_slice(payload::as_slice(data));
    Some(out)
}

proof fn lemma_received(stream: Seq<DataChunk>)
    requires
        forall|i: int|
            0 <= i < stream.len() ==> (#[trigger] stream[i]).is_last == (i + 1 == stream.len()),
    ensures
        received(arrived(stream)) == Ok::<Seq<Seq<u8>>, Status>(
            stream.map_values(|c: DataChunk| payload(c.data)),
        ),
    decreases stream.len(),
{
    let all = stream.map_values(|c: DataChunk| payload(c.data));
    if stream.len() > 0 {
        let rest = stream.skip(1);
        assert(stream[0].is_last == (1 == stream.len()));
        assert(arrived(stream)[0] == Ok::<DataChunk, Status>(stream[0]));
        if stream[0].is_last {
            assert(seq![payload(stream[0].data)] =~= all);
        } else {
            assert forall|i: int| 0 <= i < rest.len() implies (#[trigger] rest[i]).is_last == (i + 1
                == rest.len()) by {
                assert(stream[i + 1].is_last == (i + 2 == stream.len()));
            }
            lemma_received(rest);
            assert(arrived(stream).skip(1) =~= arrived(rest));
            assert(seq![payload(stream[0].data)] + rest.map_values(
                |c: DataChunk| payload(c.data),
            ) =~= all);
        }
    } else {
        assert(all =~= Seq::<Seq<u8>>::empty());
    }
}

/// A stream of which every chunk arrived.
pub open spec fn arrived(stream: Seq<DataChunk>) -> Seq<Result<DataChunk, Status>> {
    stream.map_values(|c: DataChunk| Ok::<DataChunk, Status>(c))
}

/// What a client takes in of the stream in which an object is sent is the object.
pub proof fn streamed_object_is_received(stream: Seq<DataChunk>, segs: Seq<Seq<u8>>)
    requires
        carries(stream, object_chunks(segs), concat(segs).len() as int),
    ensures
        received(arrived(stream)) is Ok,
        concat(received(arrived(stream))->Ok_0) == concat(segs),
{
    let c = object_chunks(segs);
    assert forall|i: int| 0 <= i < stream.len() implies (#[trigger] stream[i]).is_last == (i + 1
        == stream.len()) by {
        assert(stream[i].says(c[i], concat(segs).len() as int, i + 1 == stream.len()));
    }
    lemma_received(stream);
    let data = stream.map_values(|c: DataChunk| payload(c.data));
    assert forall|i: int| 0 <= i < stream.len() implies #[trigger] data[i] == chunk_data(c)[i] by {
        assert(stream[i].says(c[i], concat(segs).len() as int, i + 1 == stream.len()));
    }
    assert(data =~= chunk_data(c));
    streaming::stream_carries_the_object(segs);
}

/// A stream that breaks before its last chunk gives no object, whatever came before.
pub proof fn broken_stream_gives_no_object(
    stream: Seq<DataChunk>,
    status: Status,
    after: Seq<Result<DataChunk, Status>>,
)
    requires
        forall|i: int| 0 <= i < stream.len() ==> !(#[trigger] stream[i]).is_last,
    ensures
        received(arrived(stream).push(Err(status)) + after) == Err::<Seq<Seq<u8>>, Status>(status),
    decreases stream.len(),
{
    let whole = arrived(stream).push(Err(status)) + after;
    if stream.len() == 0 {
        assert(whole[0] == Err::<DataChunk, Status>(status));
    } else {
        let rest = stream.skip(1);
        assert forall|i: int| 0 <= i < rest.len() implies !(#[trigger] rest[i]).is_last by {
            assert(!stream[i + 1].is_last);
        }
        broken_stream_gives_no_object(rest, status, after);
        assert(whole[0] == Ok::<DataChunk, Status>(stream[0]));
        assert(whole.skip(1) =~= arrived(rest).push(Err(status)) + after);
    }
}

} // verus!
