//! The control messages as the other side reads them: where each field begins, how long it is,
//! and in which order its bytes come.
use crate::pb::DescriptorView;
use crate::rdma_bench::segment_at;
use crate::stripes;
use crate::stripes::stripe_count;
use crate::text::byte_len;
use crate::wire;
use crate::wire::{
    committed_outcome, descriptor_get_request, descriptor_request_fault, get_request, le, le_value,
    put_request, qp_bytes, refused_outcome, remote_write, span, tag_of, Expected, QpInfo,
    MAX_WRITE_BYTES,
};
use vstd::arithmetic::power::{lemma_pow0, pow};
use vstd::prelude::*;
use vstd::utf8::encode_utf8;

verus! {

/// The number that stands in `width` bytes of a message, from `at` on.
pub open spec fn number_at(m: Seq<u8>, at: int, width: int) -> nat {
    le_value(m.subrange(at, at + width))
}

/// A text with its length in front stands in a message, from `at` on.
pub open spec fn holds_text_at(m: Seq<u8>, at: int, s: Seq<char>) -> bool {
    &&& number_at(m, at, 2) == encode_utf8(s).len()
    &&& m.subrange(at + 2, at + 2 + encode_utf8(s).len() as int) == encode_utf8(s)
}

/// The first byte counts ones, the next 256s, and so on: a byte that follows counts as much as
/// all combinations of the bytes before it.
pub proof fn later_bytes_count_more(b: Seq<u8>, x: u8)
    ensures
        le_value(Seq::<u8>::empty()) == 0,
        le_value(b.push(x)) == le_value(b) + x * pow(256, b.len()),
    decreases b.len(),
{
    lemma_pow0(256);
    if b.len() == 0 {
        assert(b.push(x).skip(1) =~= Seq::<u8>::empty());
    } else {
        let t = b.skip(1);
        later_bytes_count_more(t, x);
        assert(b.push(x).skip(1) =~= t.push(x));
        assert(pow(256, b.len()) == 256 * pow(256, t.len())) by {
            reveal(pow);
        }
        let p = pow(256, t.len());
        assert(256 * (le_value(t) + x * p) == 256 * le_value(t) + x * (256 * p))
            by (nonlinear_arith);
    }
}

/// The lowest byte of a number comes first, and what remains of it follows.
pub proof fn lowest_byte_comes_first(n: nat, width: nat)
    requires
        width > 0,
    ensures
        le(n, width).len() == width,
        le(n, width)[0] == n % 256,
        le(n, width).skip(1) == le(n / 256, (width - 1) as nat),
    decreases width,
{
    if width > 1 {
        lowest_byte_comes_first(n / 256, (width - 1) as nat);
    }
    assert(le(n, width).skip(1) =~= le(n / 256, (width - 1) as nat));
}

proof fn lemma_number(n: nat, width: nat)
    requires
        width == 2 ==> n <= u16::MAX,
        width == 4 ==> n <= u32::MAX,
        width == 8 ==> n <= u64::MAX,
        width == 2 || width == 4 || width == 8,
    ensures
        le(n, width).len() == width,
        le_value(le(n, width)) == n,
{
    reveal_with_fuel(span, 9);
    wire::number_reads_back(n, width);
}

/// An address of a queue pair: its number, its first packet number and its network address.
pub proof fn address_is_laid_out(q: QpInfo)
    ensures
        qp_bytes(q).len() == 4 + 4 + q.gid@.len(),
        number_at(qp_bytes(q), 0, 4) == q.qpn,
        number_at(qp_bytes(q), 4, 4) == q.psn,
        qp_bytes(q).skip(8) == q.gid@,
{
    lemma_number(q.qpn as nat, 4);
    lemma_number(q.psn as nat, 4);
    assert(qp_bytes(q).subrange(0, 4) =~= le(q.qpn as nat, 4));
    assert(qp_bytes(q).subrange(4, 8) =~= le(q.psn as nat, 4));
    assert(qp_bytes(q).skip(8) =~= q.gid@);
}

/// A request to read an object: its tag, the key, the address to write to with its access key,
/// and the most bytes that fit there.
pub proof fn get_request_is_laid_out(key: Seq<char>, addr: u64, rkey: u32, max_size: u64)
    requires
        byte_len(key) <= u16::MAX,
    ensures
        ({
            let m = get_request(key, addr, rkey, max_size);
            let a = 3 + encode_utf8(key).len() as int;
            &&& m[0] == 2
            &&& holds_text_at(m, 1, key)
            &&& number_at(m, a, 8) == addr
            &&& number_at(m, a + 8, 4) == rkey
            &&& number_at(m, a + 12, 8) == max_size
            &&& m.len() == a + 20
        }),
{
    let m = get_request(key, addr, rkey, max_size);
    let n = encode_utf8(key).len() as int;
    let a = 3 + n;
    lemma_number(n as nat, 2);
    lemma_number(addr as nat, 8);
    lemma_number(rkey as nat, 4);
    lemma_number(max_size as nat, 8);
    assert(m.subrange(1, 3) =~= le(n as nat, 2));
    assert(m.subrange(3, 3 + n) =~= encode_utf8(key));
    assert(m.subrange(a, a + 8) =~= le(addr as nat, 8));
    assert(m.subrange(a + 8, a + 12) =~= le(rkey as nat, 4));
    assert(m.subrange(a + 12, a + 20) =~= le(max_size as nat, 8));
}

/// A request to write an object: its tag, the key, and the size.
pub proof fn put_request_is_laid_out(message: u8, key: Seq<char>, size: u64)
    requires
        byte_len(key) <= u16::MAX,
    ensures
        ({
            let m = put_request(message, key, size);
            let a = 3 + encode_utf8(key).len() as int;
            &&& m[0] == message
            &&& holds_text_at(m, 1, key)
            &&& number_at(m, a, 8) == size
            &&& m.len() == a + 8
        }),
{
    let m = put_request(message, key, size);
    let n = encode_utf8(key).len() as int;
    let a = 3 + n;
    lemma_number(n as nat, 2);
    lemma_number(size as nat, 8);
    assert(m.subrange(1, 3) =~= le(n as nat, 2));
    assert(m.subrange(3, 3 + n) =~= encode_utf8(key));
    assert(m.subrange(a, a + 8) =~= le(size as nat, 8));
}

/// A request to read one version of an object: its tag, the key, what names the version, how the
/// object is laid out, and where it is to be written.
pub proof fn descriptor_request_is_laid_out(
    key: Seq<char>,
    d: DescriptorView,
    addr: u64,
    rkey: u32,
    max_size: u64,
)
    requires
        byte_len(key) <= u16::MAX,
        byte_len(d.object_handle) <= u16::MAX,
        byte_len(d.content_etag) <= u16::MAX,
    ensures
        ({
            let m = descriptor_get_request(key, d, addr, rkey, max_size);
            let h = 3 + encode_utf8(key).len() as int;
            let g = h + 2 + encode_utf8(d.object_handle).len() as int;
            let v = g + 10 + encode_utf8(d.content_etag).len() as int;
            &&& m[0] == 8
            &&& holds_text_at(m, 1, key)
            &&& holds_text_at(m, h, d.object_handle)
            &&& number_at(m, g, 8) == d.object_generation
            &&& holds_text_at(m, g + 8, d.content_etag)
            &&& number_at(m, v, 8) == d.layout_version
            &&& number_at(m, v + 8, 8) == d.size
            &&& m[v + 16] == 0 <==> !d.is_striped
            &&& m[v + 16] == 1 <==> d.is_striped
            &&& number_at(m, v + 17, 4) == d.stripe_count
            &&& number_at(m, v + 21, 8) == d.chunk_size
            &&& number_at(m, v + 29, 8) == addr
            &&& number_at(m, v + 37, 4) == rkey
            &&& number_at(m, v + 41, 8) == max_size
            &&& m.len() == v + 49
        }),
{
    let m = descriptor_get_request(key, d, addr, rkey, max_size);
    let n = encode_utf8(key).len() as int;
    let nh = encode_utf8(d.object_handle).len() as int;
    let ne = encode_utf8(d.content_etag).len() as int;
    let h = 3 + n;
    let g = h + 2 + nh;
    let v = g + 10 + ne;
    lemma_number(n as nat, 2);
    lemma_number(nh as nat, 2);
    lemma_number(ne as nat, 2);
    lemma_number(d.object_generation as nat, 8);
    lemma_number(d.layout_version as nat, 8);
    lemma_number(d.size as nat, 8);
    lemma_number(d.stripe_count as nat, 4);
    lemma_number(d.chunk_size as nat, 8);
    lemma_number(addr as nat, 8);
    lemma_number(rkey as nat, 4);
    lemma_number(max_size as nat, 8);
    assert(m.subrange(1, 3) =~= le(n as nat, 2));
    assert(m.subrange(3, 3 + n) =~= encode_utf8(key));
    assert(m.subrange(h, h + 2) =~= le(nh as nat, 2));
    assert(m.subrange(h + 2, h + 2 + nh) =~= encode_utf8(d.object_handle));
    assert(m.subrange(g, g + 8) =~= le(d.object_generation as nat, 8));
    assert(m.subrange(g + 8, g + 10) =~= le(ne as nat, 2));
    assert(m.subrange(g + 10, g + 10 + ne) =~= encode_utf8(d.content_etag));
    assert(m.subrange(v, v + 8) =~= le(d.layout_version as nat, 8));
    assert(m.subrange(v + 8, v + 16) =~= le(d.size as nat, 8));
    assert(m.subrange(v + 17, v + 21) =~= le(d.stripe_count as nat, 4));
    assert(m.subrange(v + 21, v + 29) =~= le(d.chunk_size as nat, 8));
    assert(m.subrange(v + 29, v + 37) =~= le(addr as nat, 8));
    assert(m.subrange(v + 37, v + 41) =~= le(rkey as nat, 4));
    assert(m.subrange(v + 41, v + 49) =~= le(max_size as nat, 8));
}

/// A request for a version can be written exactly where its three texts fit; otherwise the first
/// that does not is named.
pub proof fn version_request_needs_short_texts(key: Seq<char>, d: DescriptorView)
    ensures
        descriptor_request_fault(key, d) is None <==> encode_utf8(key).len() <= 65535
            && encode_utf8(d.object_handle).len() <= 65535 && encode_utf8(d.content_etag).len()
            <= 65535,
        encode_utf8(key).len() > 65535 ==> descriptor_request_fault(key, d) == Some("key"@),
        encode_utf8(key).len() <= 65535 && encode_utf8(d.object_handle).len() > 65535
            ==> descriptor_request_fault(key, d) == Some("object_handle"@),
{
}

/// Each reply that is waited for has a tag of its own, and none has the tag of a request.
pub proof fn replies_are_told_apart(a: Expected, b: Expected)
    ensures
        a == Expected::Hello ==> tag_of(a) == 1,
        a == Expected::GetResponse ==> tag_of(a) == 3,
        a == Expected::PutReady ==> tag_of(a) == 5,
        a == Expected::PutResponse ==> tag_of(a) == 7,
        tag_of(a) == tag_of(b) ==> a == b,
        a != Expected::Hello ==> tag_of(a) != wire::MSG_HELLO,
        tag_of(a) != wire::MSG_GET_REQ,
        tag_of(a) != wire::MSG_PUT_REQ,
        tag_of(a) != wire::MSG_PUT_COMMIT,
        tag_of(a) != wire::MSG_GET_DESCRIPTOR_REQ,
        tag_of(a) != wire::MSG_PUT_IF_ABSENT_REQ,
        tag_of(a) != wire::MSG_BYE,
{
}

/// A write is reported as done only where the server says that it stored the object, and as not
/// needed only where the client asked for it to be stored if absent and the server says that it
/// is there. A server that was not ready has stored nothing.
pub proof fn outcome_is_what_the_server_says(result: u8, if_not_exists: bool)
    ensures
        committed_outcome(result, if_not_exists) == Some(true) <==> result == 1,
        committed_outcome(result, if_not_exists) == Some(false) <==> result == 2 && if_not_exists,
        refused_outcome(result, if_not_exists) != Some(true),
        refused_outcome(result, if_not_exists) == Some(false) <==> result == 2 && if_not_exists,
{
}

/// Remote writes go from the memory and to the memory that they are given the keys of; they are
/// numbered, and each moves as much as one may but for the last.
pub proof fn remote_writes_use_their_keys(
    src: u64,
    lkey: u32,
    dst: u64,
    rkey: u32,
    size: u64,
    i: int,
)
    requires
        0 <= i < stripe_count(size as nat, MAX_WRITE_BYTES as nat),
    ensures
        ({
            let w = remote_write(src, lkey, dst, rkey, size, i);
            &&& w.src_lkey == lkey
            &&& w.dst_rkey == rkey
            &&& w.id == i
            &&& !w.signaled ==> w.len == 1073741824
        }),
{
    let c = MAX_WRITE_BYTES as nat;
    stripes::lemma_stripe_bounds(size as nat, c, i);
    assert((i + 1) * c == i * c + c) by (nonlinear_arith);
}

/// Segments of a buffer are all under the key of the buffer, and as long as asked for but for the
/// last.
pub proof fn segments_are_under_one_key(base: u64, rkey: u32, total: nat, len: nat, i: int)
    requires
        0 < len <= u64::MAX,
        0 <= i < stripe_count(total, len),
    ensures
        segment_at(base, rkey, total, len, i).rkey == rkey,
        i + 1 < stripe_count(total, len) ==> segment_at(base, rkey, total, len, i).len == len,
        total <= u64::MAX ==> 0 < segment_at(base, rkey, total, len, i).len <= len,
{
    stripes::lemma_stripe_bounds(total, len, i);
    assert((i + 1) * len == i * len + len) by (nonlinear_arith);
}

} // verus!
