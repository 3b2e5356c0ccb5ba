//! Reference-counted byte buffers (`prost::bytes`) and what is known of them.
use prost::bytes::{Bytes, BytesMut};
use vstd::prelude::*;

verus! {

/// `bytes::Bytes`: an immutable, cheaply cloneable view of a byte buffer.
#[verifier::external_type_specification]
#[verifier::external_body]
pub struct ExBytes(Bytes);

/// `bytes::BytesMut`: a growable byte buffer that freezes into a `Bytes`.
#[verifier::external_type_specification]
#[verifier::external_body]
pub struct ExBytesMut(BytesMut);

/// The bytes that a `Bytes` handle shows.
pub uninterp spec fn payload(b: Bytes) -> Seq<u8>;

/// The bytes written so far into a `BytesMut`.
pub uninterp spec fn pending(b: BytesMut) -> Seq<u8>;

/// The contents of each buffer of a list.
pub open spec fn payloads(s: Seq<Bytes>) -> Seq<Seq<u8>> {
    s.map_values(|b: Bytes| payload(b))
}

/// `Bytes::len`: the number of bytes shown.
pub assume_specification[ Bytes::len ](b: &Bytes) -> (n: usize)
    ensures
        n == payload(*b).len(),
;

/// `Bytes::new`: an empty buffer.
pub assume_specification[ Bytes::new ]() -> (b: Bytes)
    ensures
        payload(b) == Seq::<u8>::empty(),
;

/// `Bytes::split_to`: cuts the first `at` bytes off into a handle of their own.
pub assume_specification[ Bytes::split_to ](b: &mut Bytes, at: usize) -> (head: Bytes)
    requires
        at <= payload(*old(b)).len(),
    ensures
        payload(head) == payload(*old(b)).take(at as int),
        payload(*final(b)) == payload(*old(b)).skip(at as int),
;

/// `Bytes::clone`: another handle on the same bytes.
pub assume_specification[ <Bytes as Clone>::clone ](b: &Bytes) -> (r: Bytes)
    ensures
        payload(r) == payload(*b),
;

/// `BytesMut::with_capacity`: an empty growable buffer. No buffer exceeds `isize::MAX` bytes.
pub assume_specification[ BytesMut::with_capacity ](capacity: usize) -> (b: BytesMut)
    requires
        capacity <= isize::MAX,
    ensures
        pending(b) == Seq::<u8>::empty(),
;

/// `BytesMut::extend_from_slice`: appends a copy of the slice.
pub assume_specification[ BytesMut::extend_from_slice ](b: &mut BytesMut, extend: &[u8])
    requires
        pending(*old(b)).len() + extend@.len() <= isize::MAX,
    ensures
        pending(*final(b)) == pending(*old(b)) + extend@,
;

/// `BytesMut::freeze`: turns what was written into an immutable handle.
pub assume_specification[ BytesMut::freeze ](b: BytesMut) -> (r: Bytes)
    ensures
        payload(r) == pending(b),
;

/// `Bytes::slice` on a half-open range: a handle on bytes `start..end`.
#[verifier::external_body]
pub(crate) fn slice(b: &Bytes, start: usize, end: usize) -> (r: Bytes)
    requires
        start <= end <= payload(*b).len(),
    ensures
        payload(r) == payload(*b).subrange(start as int, end as int),
{
    b.slice(start..end)
}

/// `<Bytes as AsRef<[u8]>>::as_ref`: the bytes shown, as a slice.
#[verifier::external_body]
pub(crate) fn as_slice(b: &Bytes) -> (r: &[u8])
    ensures
        r@ == payload(*b),
{
    b.as_ref()
}

/// `Bytes::from` on a vector: a handle on exactly its bytes.
#[verifier::external_body]
pub(crate) fn from_vec(v: Vec<u8>) -> (r: Bytes)
    ensures
        payload(r) == v@,
{
    Bytes::from(v)
}

/// The concatenation of a list of byte strings.
pub open spec fn concat(parts: Seq<Seq<u8>>) -> Seq<u8>
    decreases parts.len(),
{
    if parts.len() == 0 {
        Seq::empty()
    } else {
        concat(parts.drop_last()) + parts.last()
    }
}

/// Concatenation distributes over joining the lists.
pub proof fn lemma_concat_append(a: Seq<Seq<u8>>, b: Seq<Seq<u8>>)
    ensures
        concat(a + b) == concat(a) + concat(b),
    decreases b.len(),
{
    if b.len() == 0 {
        assert(a + b =~= a);
        assert(concat(a) + concat(b) =~= concat(a));
    } else {
        assert((a + b).drop_last() =~= a + b.drop_last());
        lemma_concat_append(a, b.drop_last());
        assert(concat(a + b) =~= concat(a) + concat(b));
    }
}

/// The total length of a prefix of buffers never exceeds that of the whole list.
pub proof fn lemma_concat_prefix_len(parts: Seq<Seq<u8>>, n: int)
    requires
        0 <= n <= parts.len(),
    ensures
        concat(parts.take(n)).len() <= concat(parts).len(),
{
    assert(parts =~= parts.take(n) + parts.skip(n));
    lemma_concat_append(parts.take(n), parts.skip(n));
}

/// Number of bytes over all segments.
pub fn total_len(segments: &Vec<Bytes>) -> (n: usize)
    requires
        concat(payloads(segments@)).len() <= usize::MAX,
    ensures
        n == concat(payloads(segments@)).len(),
{
    let mut n: usize = 0;
    let mut i: usize = 0;
    while i < segments.len()
        invariant
            i <= segments.len(),
            n == concat(payloads(segments@).take(i as int)).len(),
            concat(payloads(segments@)).len() <= usize::MAX,
        decreases segments.len() - i,
    {
        proof {
            let p = payloads(segments@);
            assert(p.take(i + 1).drop_last() =~= p.take(i as int));
            lemma_concat_prefix_len(p, i + 1);
        }
        n = n + segments[i].len();
        i = i + 1;
    }
    proof {
        let p = payloads(segments@);
        assert(p.take(i as int) =~= p);
    }
    n
}

/// Joins the segments into one buffer; a single segment is passed on without copying.
pub fn flatten_segments(segments: Vec<Bytes>) -> (r: Bytes)
    requires
        concat(payloads(segments@)).len() <= isize::MAX,
    ensures
        payload(r) == concat(payloads(segments@)),
{
    if segments.len() == 0 {
        return Bytes::new();
    }
    if segments.len() == 1 {
        proof {
            let p = payloads(segments@);
            reveal_with_fuel(concat, 2);
            assert(concat(p) =~= payload(segments@[0]));
        }
        return segments[0].clone();
    }
    let total: usize = total_len(&segments);
    let mut buf = BytesMut::with_capacity(total);
    let mut i: usize = 0;
    while i < segments.len()
        invariant
            i <= segments.len(),
            concat(payloads(segments@)).len() <= isize::MAX,
            pending(buf) == concat(payloads(segments@).take(i as int)),
        decreases segments.len() - i,
    {
        proof {
            let p = payloads(segments@);
            assert(p.take(i + 1).drop_last() =~= p.take(i as int));
            lemma_concat_prefix_len(p, i + 1);
        }
        buf.extend_from_slice(as_slice(&segments[i]));
        i = i + 1;
    }
    proof {
        let p = payloads(segments@);
        assert(p.take(i as int) =~= p);
    }
    buf.freeze()
}

/// Further handles on the same segments.
pub fn clone_segments(segments: &Vec<Bytes>) -> (r: Vec<Bytes>)
    ensures
        payloads(r@) == payloads(segments@),
{
    let mut out: Vec<Bytes> = Vec::new();
    let mut i: usize = 0;
    while i < segments.len()
        invariant
            i <= segments.len(),
            out.len() == i,
            forall|k: int| 0 <= k < i ==> payload(#[trigger] out@[k]) == payload(segments@[k]),
        decreases segments.len() - i,
    {
        out.push(segments[i].clone());
        i = i + 1;
    }
    proof {
        assert(payloads(out@) =~= payloads(segments@));
    }
    out
}

} // verus!
