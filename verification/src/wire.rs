//! The control messages of the RDMA data plane.
use crate::pb;
use crate::pb::DescriptorView;
use crate::stripes;
use crate::text;
use crate::text::{byte_len, decimal};
use vstd::prelude::*;
use vstd::string::*;
use vstd::utf8::encode_utf8;

verus! {

pub const MSG_HELLO: u8 = 1;

pub const MSG_GET_REQ: u8 = 2;

pub const MSG_GET_RESP: u8 = 3;

pub const MSG_PUT_REQ: u8 = 4;

pub const MSG_PUT_READY: u8 = 5;

pub const MSG_PUT_COMMIT: u8 = 6;

pub const MSG_PUT_RESP: u8 = 7;

pub const MSG_GET_DESCRIPTOR_REQ: u8 = 8;

pub const MSG_PUT_IF_ABSENT_REQ: u8 = 9;

pub const MSG_BYE: u8 = 99;

pub const PUT_RESULT_FAILED: u8 = 0;

pub const PUT_RESULT_STORED: u8 = 1;

pub const PUT_RESULT_EXISTS: u8 = 2;

/// The most bytes that one remote write moves: 1 GiB.
pub const MAX_WRITE_BYTES: u64 = 1073741824;

/// Connection parameters of a data node.
#[derive(Debug, Clone, PartialEq, Eq)]
pub struct RdmaClientConfig {
    /// Address of the control listener, for example `10.0.0.10:50053`.
    pub endpoint: String,
    /// Verbs device, for example `mlx5_0`.
    pub device: String,
    /// Port of the adapter.
    pub port: u8,
    /// Index of the address that the adapter presents.
    pub gid_index: u8,
}

impl RdmaClientConfig {
    /// The usual port and address index.
    pub fn new(endpoint: &str, device: &str) -> (r: RdmaClientConfig)
        ensures
            r.endpoint@ == endpoint@,
            r.device@ == device@,
            r.port == 1,
            r.gid_index == 3,
    {
        RdmaClientConfig {
            endpoint: endpoint.to_owned(),
            device: device.to_owned(),
            port: 1,
            gid_index: 3,
        }
    }

    pub fn with_port(self, port: u8) -> (r: RdmaClientConfig)
        ensures
            r == (RdmaClientConfig { port, ..self }),
    {
        let mut r = self;
        r.port = port;
        r
    }

    pub fn with_gid_index(self, gid_index: u8) -> (r: RdmaClientConfig)
        ensures
            r == (RdmaClientConfig { gid_index, ..self }),
    {
        let mut r = self;
        r.gid_index = gid_index;
        r
    }
}

/// A number in `width` bytes, the lowest first.
pub open spec fn le(n: nat, width: nat) -> Seq<u8>
    decreases width,
{
    if width == 0 {
        Seq::empty()
    } else {
        seq![(n % 256) as u8] + le(n / 256, (width - 1) as nat)
    }
}

/// The number that bytes denote, the lowest first.
pub open spec fn le_value(b: Seq<u8>) -> nat
    decreases b.len(),
{
    if b.len() == 0 {
        0
    } else {
        b[0] as nat + 256 * le_value(b.skip(1))
    }
}

/// 256 to the power of `width`.
pub open spec fn span(width: nat) -> nat
    decreases width,
{
    if width == 0 {
        1
    } else {
        256 * span((width - 1) as nat)
    }
}

/// A number that fits reads back from its bytes, which are as many as asked for.
pub proof fn number_reads_back(n: nat, width: nat)
    requires
        n < span(width),
    ensures
        le(n, width).len() == width,
        le_value(le(n, width)) == n,
    decreases width,
{
    if width > 0 {
        let w = (width - 1) as nat;
        assert(n / 256 < span(w)) by (nonlinear_arith)
            requires
                n < 256 * span(w),
        ;
        number_reads_back(n / 256, w);
        assert(le(n, width).skip(1) =~= le(n / 256, w));
    }
}

proof fn lemma_le_len(n: nat, width: nat)
    ensures
        le(n, width).len() == width,
    decreases width,
{
    if width > 0 {
        lemma_le_len(n / 256, (width - 1) as nat);
    }
}

proof fn lemma_span()
    ensures
        span(1) == 0x100,
        span(2) == 0x1_0000,
        span(4) == 0x1_0000_0000,
        span(8) == 0x1_0000_0000_0000_0000,
{
    reveal_with_fuel(span, 9);
}

fn push_le(out: &mut Vec<u8>, n: u64, width: usize)
    ensures
        final(out)@ == old(out)@ + le(n as nat, width as nat),
    decreases width,
{
    if width > 0 {
        let ghost before = out@;
        out.push((n % 256) as u8);
        push_le(out, n / 256, width - 1);
        proof {
            assert(out@ =~= before + le(n as nat, width as nat));
        }
    } else {
        proof {
            assert(out@ =~= old(out)@ + le(n as nat, width as nat));
        }
    }
}

fn read_le(b: &[u8], from: usize, width: usize) -> (r: u64)
    requires
        from + width <= b@.len(),
        width <= 8,
    ensures
        r == le_value(b@.subrange(from as int, from + width)),
        r < span(width as nat),
    decreases width,
{
    if width == 0 {
        0
    } else {
        let len: usize = b.len();
        let rest: u64 = read_le(b, from + 1, width - 1);
        proof {
            let s = b@.subrange(from as int, from + width);
            assert(s.skip(1) =~= b@.subrange(from + 1, from + width));
            assert(s[0] == b@[from as int]);
            lemma_span_small(width as nat);
        }
        b[from] as u64 + 256 * rest
    }
}

proof fn lemma_span_small(width: nat)
    requires
        1 <= width <= 8,
    ensures
        span((width - 1) as nat) * 256 <= 0x1_0000_0000_0000_0000,
        span(width) == 256 * span((width - 1) as nat),
{
    reveal_with_fuel(span, 9);
}

fn push_bytes(out: &mut Vec<u8>, b: &[u8])
    ensures
        final(out)@ == old(out)@ + b@,
{
    let ghost before = out@;
    proof {
        assert(out@ =~= before + b@.take(0));
    }
    let mut i: usize = 0;
    while i < b.len()
        invariant
            i <= b@.len(),
            out@ == before + b@.take(i as int),
        decreases b.len() - i,
    {
        out.push(b[i]);
        proof {
            assert(out@ =~= before + b@.take(i + 1));
        }
        i = i + 1;
    }
    proof {
        assert(b@.take(i as int) =~= b@);
    }
}

/// Address of a queue pair.
#[derive(Debug, Clone, Copy, PartialEq, Eq)]
pub struct QpInfo {
    pub qpn: u32,
    pub psn: u32,
    pub gid: [u8; 16],
}

/// The bytes of a queue pair address.
pub open spec fn qp_bytes(q: QpInfo) -> Seq<u8> {
    le(q.qpn as nat, 4) + le(q.psn as nat, 4) + q.gid@
}

impl QpInfo {
    /// The address as it travels.
    pub fn to_bytes(&self) -> (r: Vec<u8>)
        ensures
            r@ == qp_bytes(*self),
            r@.len() == 24,
    {
        let mut out: Vec<u8> = Vec::new();
        push_le(&mut out, self.qpn as u64, 4);
        push_le(&mut out, self.psn as u64, 4);
        let mut i: usize = 0;
        let ghost head = out@;
        while i < 16
            invariant
                i <= 16,
                out@ == head + self.gid@.take(i as int),
            decreases 16 - i,
        {
            out.push(self.gid[i]);
            proof {
                assert(out@ =~= head + self.gid@.take(i + 1));
            }
            i = i + 1;
        }
        proof {
            assert(self.gid@.take(16) =~= self.gid@);
            lemma_le_len(self.qpn as nat, 4);
            lemma_le_len(self.psn as nat, 4);
        }
        out
    }

    /// Reads an address that arrived.
    pub fn from_bytes(b: &[u8]) -> (r: QpInfo)
        requires
            b@.len() == 24,
        ensures
            r.qpn == le_value(b@.subrange(0, 4)),
            r.psn == le_value(b@.subrange(4, 8)),
            r.gid@ == b@.subrange(8, 24),
    {
        proof {
            lemma_span();
        }
        let qpn: u32 = read_le(b, 0, 4) as u32;
        let psn: u32 = read_le(b, 4, 4) as u32;
        let mut gid: [u8; 16] = [0u8; 16];
        let mut i: usize = 0;
        while i < 16
            invariant
                i <= 16,
                b@.len() == 24,
                forall|k: int| 0 <= k < i ==> gid@[k] == b@[8 + k],
            decreases 16 - i,
        {
            gid[i] = b[8 + i];
            i = i + 1;
        }
        proof {
            assert(gid@ =~= b@.subrange(8, 24));
        }
        QpInfo { qpn, psn, gid }
    }
}

/// An address that is sent arrives as it is.
pub proof fn qp_address_reads_back(q: QpInfo, b: Seq<u8>)
    requires
        b == qp_bytes(q),
    ensures
        b.len() == 24,
        le_value(b.subrange(0, 4)) == q.qpn,
        le_value(b.subrange(4, 8)) == q.psn,
        b.subrange(8, 24) == q.gid@,
{
    lemma_span();
    number_reads_back(q.qpn as nat, 4);
    number_reads_back(q.psn as nat, 4);
    assert(b.subrange(0, 4) =~= le(q.qpn as nat, 4));
    assert(b.subrange(4, 8) =~= le(q.psn as nat, 4));
    assert(b.subrange(8, 24) =~= q.gid@);
}

/// The first message, with the address of one's own queue pair.
pub fn build_hello(info: &QpInfo) -> (r: Vec<u8>)
    ensures
        r@ == seq![MSG_HELLO] + qp_bytes(*info),
{
    let mut out: Vec<u8> = Vec::new();
    out.push(MSG_HELLO);
    let body = info.to_bytes();
    push_bytes(&mut out, body.as_slice());
    proof {
        assert(out@ =~= seq![MSG_HELLO] + qp_bytes(*info));
    }
    out
}

/// The low 24 bits of a clock reading, as the first packet number.
pub fn psn_from_clock(nanos: u32) -> (r: u32)
    ensures
        r == nanos % 0x100_0000,
{
    assert(nanos & 0x00ff_ffff == nanos % 0x100_0000) by (bit_vector);
    nanos & 0x00ff_ffff
}

/// A text with its length in front, in two bytes.
pub open spec fn wire_string(s: Seq<char>) -> Seq<u8> {
    le(byte_len(s), 2) + encode_utf8(s)
}

/// The text of an error about a field that is too long.
pub open spec fn too_long(field: Seq<char>) -> Seq<char> {
    "RDMA "@ + field + " exceeds 65535 bytes"@
}

/// Appends a text with its length in front.
pub fn push_string(target: &mut Vec<u8>, value: &str, field: &str) -> (r: Result<(), String>)
    ensures
        if byte_len(value@) <= u16::MAX {
            r is Ok && final(target)@ == old(target)@ + wire_string(value@)
        } else {
            r is Err && r->Err_0@ == too_long(field@) && final(target)@ == old(target)@
        },
{
    let bytes = value.as_bytes();
    let n: usize = bytes.len();
    if n > 65535 {
        let mut text = "RDMA ".to_owned();
        text.append(field);
        text.append(" exceeds 65535 bytes");
        return Err(text);
    }
    let ghost before = target@;
    push_le(target, n as u64, 2);
    push_bytes(target, bytes);
    proof {
        assert(target@ =~= before + wire_string(value@));
    }
    Ok(())
}

/// A request to read an object into memory at an address.
pub open spec fn get_request(key: Seq<char>, addr: u64, rkey: u32, max_size: u64) -> Seq<u8> {
    seq![MSG_GET_REQ] + wire_string(key) + le(addr as nat, 8) + le(rkey as nat, 4) + le(
        max_size as nat,
        8,
    )
}

/// A request to read an object into memory at an address.
pub fn build_get_request(key: &str, addr: u64, rkey: u32, max_size: u64) -> (r: Result<
    Vec<u8>,
    String,
>)
    ensures
        if byte_len(key@) <= u16::MAX {
            r is Ok && r->Ok_0@ == get_request(key@, addr, rkey, max_size)
        } else {
            r is Err && r->Err_0@ == too_long("key"@)
        },
{
    let mut out: Vec<u8> = Vec::new();
    out.push(MSG_GET_REQ);
    proof {
        assert(out@ =~= seq![MSG_GET_REQ]);
    }
    match push_string(&mut out, key, "key") {
        Ok(_) => {},
        Err(e) => {
            return Err(e);
        },
    }
    push_le(&mut out, addr, 8);
    push_le(&mut out, rkey as u64, 4);
    push_le(&mut out, max_size, 8);
    Ok(out)
}

/// The request as the C interface sends it: the length of the key is cut to two bytes.
pub fn build_unchecked_get_request(key: &str, addr: u64, rkey: u32, max_size: u64) -> (r: Vec<u8>)
    ensures
        r@ == seq![MSG_GET_REQ] + le(byte_len(key@), 2) + encode_utf8(key@) + le(addr as nat, 8)
            + le(rkey as nat, 4) + le(max_size as nat, 8),
        byte_len(key@) <= u16::MAX ==> r@ == get_request(key@, addr, rkey, max_size),
{
    let mut out: Vec<u8> = Vec::new();
    out.push(MSG_GET_REQ);
    let bytes = key.as_bytes();
    proof {
        assert(out@ =~= seq![MSG_GET_REQ]);
    }
    push_le(&mut out, bytes.len() as u64, 2);
    push_bytes(&mut out, bytes);
    push_le(&mut out, addr, 8);
    push_le(&mut out, rkey as u64, 4);
    push_le(&mut out, max_size, 8);
    proof {
        assert(seq![MSG_GET_REQ] + le(byte_len(key@), 2) + encode_utf8(key@) =~= seq![MSG_GET_REQ]
            + wire_string(key@));
    }
    out
}

/// A request to read one version of an object into memory at an address.
pub open spec fn descriptor_get_request(
    key: Seq<char>,
    d: DescriptorView,
    addr: u64,
    rkey: u32,
    max_size: u64,
) -> Seq<u8> {
    seq![MSG_GET_DESCRIPTOR_REQ] + wire_string(key) + wire_string(d.object_handle) + le(
        d.object_generation as nat,
        8,
    ) + wire_string(d.content_etag) + le(d.layout_version as nat, 8) + le(d.size as nat, 8) + seq![
        if d.is_striped {
            1u8
        } else {
            0u8
        },
    ] + le(d.stripe_count as nat, 4) + le(d.chunk_size as nat, 8) + le(addr as nat, 8) + le(
        rkey as nat,
        4,
    ) + le(max_size as nat, 8)
}

/// The first field of a descriptor request that is too long.
pub open spec fn descriptor_request_fault(key: Seq<char>, d: DescriptorView) -> Option<Seq<char>> {
    if byte_len(key) > u16::MAX {
        Some("key"@)
    } else if byte_len(d.object_handle) > u16::MAX {
        Some("object_handle"@)
    } else if byte_len(d.content_etag) > u16::MAX {
        Some("content_etag"@)
    } else {
        None
    }
}

/// A request to read one version of an object into memory at an address.
pub fn build_descriptor_get_request(
    key: &str,
    descriptor: &pb::ObjectDescriptor,
    addr: u64,
    rkey: u32,
    max_size: u64,
) -> (r: Result<Vec<u8>, String>)
    ensures
        match descriptor_request_fault(key@, descriptor@) {
            Some(field) => r is Err && r->Err_0@ == too_long(field),
            None => r is Ok && r->Ok_0@ == descriptor_get_request(
                key@,
                descriptor@,
                addr,
                rkey,
                max_size,
            ),
        },
{
    let mut out: Vec<u8> = Vec::new();
    out.push(MSG_GET_DESCRIPTOR_REQ);
    proof {
        assert(out@ =~= seq![MSG_GET_DESCRIPTOR_REQ]);
    }
    match push_string(&mut out, key, "key") {
        Ok(_) => {},
        Err(e) => {
            return Err(e);
        },
    }
    match push_string(&mut out, descriptor.object_handle.as_str(), "object_handle") {
        Ok(_) => {},
        Err(e) => {
            return Err(e);
        },
    }
    push_le(&mut out, descriptor.object_generation, 8);
    match push_string(&mut out, descriptor.content_etag.as_str(), "content_etag") {
        Ok(_) => {},
        Err(e) => {
            return Err(e);
        },
    }
    push_le(&mut out, descriptor.layout_version, 8);
    push_le(&mut out, descriptor.size, 8);
    let ghost head = out@;
    if descriptor.is_striped {
        out.push(1);
    } else {
        out.push(0);
    }
    proof {
        assert(out@ =~= head + seq![
            if descriptor.is_striped {
                1u8
            } else {
                0u8
            },
        ]);
    }
    push_le(&mut out, descriptor.stripe_count as u64, 4);
    push_le(&mut out, descriptor.chunk_size, 8);
    push_le(&mut out, addr, 8);
    push_le(&mut out, rkey as u64, 4);
    push_le(&mut out, max_size, 8);
    Ok(out)
}

/// A request to write an object.
pub open spec fn put_request(message: u8, key: Seq<char>, size: u64) -> Seq<u8> {
    seq![message] + wire_string(key) + le(size as nat, 8)
}

/// A request to write an object.
pub fn build_put_request(message: u8, key: &str, size: u64) -> (r: Result<Vec<u8>, String>)
    ensures
        if byte_len(key@) <= u16::MAX {
            r is Ok && r->Ok_0@ == put_request(message, key@, size)
        } else {
            r is Err && r->Err_0@ == too_long("key"@)
        },
{
    let mut out: Vec<u8> = Vec::new();
    out.push(message);
    proof {
        assert(out@ =~= seq![message]);
    }
    match push_string(&mut out, key, "key") {
        Ok(_) => {},
        Err(e) => {
            return Err(e);
        },
    }
    push_le(&mut out, size, 8);
    Ok(out)
}

/// The request as the C interface sends it: the length of the key is cut to two bytes.
pub fn build_unchecked_put_request(key: &str, size: u64) -> (r: Vec<u8>)
    ensures
        r@ == seq![MSG_PUT_REQ] + le(byte_len(key@), 2) + encode_utf8(key@) + le(size as nat, 8),
        byte_len(key@) <= u16::MAX ==> r@ == put_request(MSG_PUT_REQ, key@, size),
{
    let mut out: Vec<u8> = Vec::new();
    out.push(MSG_PUT_REQ);
    let bytes = key.as_bytes();
    proof {
        assert(out@ =~= seq![MSG_PUT_REQ]);
    }
    push_le(&mut out, bytes.len() as u64, 2);
    push_bytes(&mut out, bytes);
    push_le(&mut out, size, 8);
    proof {
        assert(seq![MSG_PUT_REQ] + le(byte_len(key@), 2) + encode_utf8(key@) =~= seq![MSG_PUT_REQ]
            + wire_string(key@));
    }
    out
}

/// The message to use for a write: one that must not replace an object has its own.
pub fn put_message(if_not_exists: bool) -> (r: u8)
    ensures
        r == (if if_not_exists {
            MSG_PUT_IF_ABSENT_REQ
        } else {
            MSG_PUT_REQ
        }),
{
    if if_not_exists {
        MSG_PUT_IF_ABSENT_REQ
    } else {
        MSG_PUT_REQ
    }
}

proof fn lemma_wire_string_prefix(a: Seq<char>, x: Seq<u8>, b: Seq<char>, y: Seq<u8>)
    requires
        byte_len(a) <= u16::MAX,
        byte_len(b) <= u16::MAX,
        wire_string(a) + x == wire_string(b) + y,
    ensures
        a == b,
        x == y,
{
    lemma_span();
    number_reads_back(byte_len(a), 2);
    number_reads_back(byte_len(b), 2);
    let w = wire_string(a) + x;
    assert(w.take(2) =~= le(byte_len(a), 2));
    assert(w.take(2) =~= le(byte_len(b), 2));
    let n = byte_len(a) as int;
    assert(byte_len(b) == n);
    assert(w.subrange(2, 2 + n) =~= encode_utf8(a));
    assert(w.subrange(2, 2 + n) =~= encode_utf8(b));
    text::lemma_encode_injective(a, b);
    assert(w.skip(2 + n) =~= x);
    assert(w.skip(2 + n) =~= y);
}

/// Different read requests have different bytes: key, destination and size can be told from
/// them.
pub proof fn get_requests_are_unambiguous(
    key: Seq<char>,
    addr: u64,
    rkey: u32,
    max_size: u64,
    key2: Seq<char>,
    addr2: u64,
    rkey2: u32,
    max_size2: u64,
)
    requires
        byte_len(key) <= u16::MAX,
        byte_len(key2) <= u16::MAX,
        get_request(key, addr, rkey, max_size) == get_request(key2, addr2, rkey2, max_size2),
    ensures
        key == key2,
        addr == addr2,
        rkey == rkey2,
        max_size == max_size2,
{
    let x = le(addr as nat, 8) + le(rkey as nat, 4) + le(max_size as nat, 8);
    let y = le(addr2 as nat, 8) + le(rkey2 as nat, 4) + le(max_size2 as nat, 8);
    let a = get_request(key, addr, rkey, max_size);
    let b = get_request(key2, addr2, rkey2, max_size2);
    assert(a.skip(1) =~= wire_string(key) + x);
    assert(b.skip(1) =~= wire_string(key2) + y);
    lemma_wire_string_prefix(key, x, key2, y);
    lemma_span();
    number_reads_back(addr as nat, 8);
    number_reads_back(addr2 as nat, 8);
    number_reads_back(rkey as nat, 4);
    number_reads_back(rkey2 as nat, 4);
    number_reads_back(max_size as nat, 8);
    number_reads_back(max_size2 as nat, 8);
    assert(x.take(8) =~= le(addr as nat, 8));
    assert(y.take(8) =~= le(addr2 as nat, 8));
    assert(x.subrange(8, 12) =~= le(rkey as nat, 4));
    assert(y.subrange(8, 12) =~= le(rkey2 as nat, 4));
    assert(x.skip(12) =~= le(max_size as nat, 8));
    assert(y.skip(12) =~= le(max_size2 as nat, 8));
}

/// Different descriptor requests have different bytes: key, version and destination can be told
/// from them.
pub proof fn descriptor_requests_are_unambiguous(
    key: Seq<char>,
    d: DescriptorView,
    addr: u64,
    rkey: u32,
    max_size: u64,
    key2: Seq<char>,
    d2: DescriptorView,
    addr2: u64,
    rkey2: u32,
    max_size2: u64,
)
    requires
        descriptor_request_fault(key, d) is None,
        descriptor_request_fault(key2, d2) is None,
        descriptor_get_request(key, d, addr, rkey, max_size) == descriptor_get_request(
            key2,
            d2,
            addr2,
            rkey2,
            max_size2,
        ),
    ensures
        key == key2,
        d2 == (DescriptorView { key: d2.key, ..d }),
        addr == addr2,
        rkey == rkey2,
        max_size == max_size2,
{
    let z = descriptor_tail(d, addr, rkey, max_size);
    let z2 = descriptor_tail(d2, addr2, rkey2, max_size2);
    let y = le(d.object_generation as nat, 8) + (wire_string(d.content_etag) + z);
    let y2 = le(d2.object_generation as nat, 8) + (wire_string(d2.content_etag) + z2);
    lemma_descriptor_shape(key, d, addr, rkey, max_size);
    lemma_descriptor_shape(key2, d2, addr2, rkey2, max_size2);
    lemma_wire_string_prefix(
        key,
        wire_string(d.object_handle) + y,
        key2,
        wire_string(d2.object_handle) + y2,
    );
    lemma_wire_string_prefix(d.object_handle, y, d2.object_handle, y2);
    lemma_number_prefix(
        d.object_generation,
        wire_string(d.content_etag) + z,
        d2.object_generation,
        wire_string(d2.content_etag) + z2,
    );
    lemma_wire_string_prefix(d.content_etag, z, d2.content_etag, z2);
    lemma_descriptor_tail(d, addr, rkey, max_size);
    lemma_descriptor_tail(d2, addr2, rkey2, max_size2);
}

proof fn lemma_number_prefix(n: u64, x: Seq<u8>, m: u64, y: Seq<u8>)
    requires
        le(n as nat, 8) + x == le(m as nat, 8) + y,
    ensures
        n == m,
        x == y,
{
    lemma_span();
    number_reads_back(n as nat, 8);
    number_reads_back(m as nat, 8);
    let w = le(n as nat, 8) + x;
    assert(w.take(8) =~= le(n as nat, 8));
    assert(w.take(8) =~= le(m as nat, 8));
    assert(w.skip(8) =~= x);
    assert(w.skip(8) =~= y);
}

proof fn lemma_descriptor_shape(
    key: Seq<char>,
    d: DescriptorView,
    addr: u64,
    rkey: u32,
    max_size: u64,
)
    ensures
        descriptor_get_request(key, d, addr, rkey, max_size).skip(1) == wire_string(key) + (
        wire_string(d.object_handle) + (le(d.object_generation as nat, 8) + (wire_string(
            d.content_etag,
        ) + descriptor_tail(d, addr, rkey, max_size)))),
{
    reveal(descriptor_tail);
    assert(descriptor_get_request(key, d, addr, rkey, max_size).skip(1) =~= wire_string(key) + (
    wire_string(d.object_handle) + (le(d.object_generation as nat, 8) + (wire_string(d.content_etag)
        + descriptor_tail(d, addr, rkey, max_size)))));
}

/// What follows the texts of a descriptor request.
#[verifier::opaque]
spec fn descriptor_tail(d: DescriptorView, addr: u64, rkey: u32, max_size: u64) -> Seq<u8> {
    le(d.layout_version as nat, 8) + le(d.size as nat, 8) + seq![
        if d.is_striped {
            1u8
        } else {
            0u8
        },
    ] + le(d.stripe_count as nat, 4) + le(d.chunk_size as nat, 8) + le(addr as nat, 8) + le(
        rkey as nat,
        4,
    ) + le(max_size as nat, 8)
}

proof fn lemma_descriptor_tail(d: DescriptorView, addr: u64, rkey: u32, max_size: u64)
    ensures
        ({
            let z = descriptor_tail(d, addr, rkey, max_size);
            &&& z.len() == 49
            &&& le_value(z.subrange(0, 8)) == d.layout_version
            &&& le_value(z.subrange(8, 16)) == d.size
            &&& (z[16] != 0) == d.is_striped
            &&& le_value(z.subrange(17, 21)) == d.stripe_count
            &&& le_value(z.subrange(21, 29)) == d.chunk_size
            &&& le_value(z.subrange(29, 37)) == addr
            &&& le_value(z.subrange(37, 41)) == rkey
            &&& le_value(z.subrange(41, 49)) == max_size
        }),
{
    reveal(descriptor_tail);
    lemma_span();
    number_reads_back(d.layout_version as nat, 8);
    number_reads_back(d.size as nat, 8);
    number_reads_back(d.stripe_count as nat, 4);
    number_reads_back(d.chunk_size as nat, 8);
    number_reads_back(addr as nat, 8);
    number_reads_back(rkey as nat, 4);
    number_reads_back(max_size as nat, 8);
    let z = descriptor_tail(d, addr, rkey, max_size);
    assert(z.subrange(0, 8) =~= le(d.layout_version as nat, 8));
    assert(z.subrange(8, 16) =~= le(d.size as nat, 8));
    assert(z.subrange(17, 21) =~= le(d.stripe_count as nat, 4));
    assert(z.subrange(21, 29) =~= le(d.chunk_size as nat, 8));
    assert(z.subrange(29, 37) =~= le(addr as nat, 8));
    assert(z.subrange(37, 41) =~= le(rkey as nat, 4));
    assert(z.subrange(41, 49) =~= le(max_size as nat, 8));
}

/// Different write requests have different bytes: message, key and size can be told from them.
pub proof fn put_requests_are_unambiguous(
    message: u8,
    key: Seq<char>,
    size: u64,
    message2: u8,
    key2: Seq<char>,
    size2: u64,
)
    requires
        byte_len(key) <= u16::MAX,
        byte_len(key2) <= u16::MAX,
        put_request(message, key, size) == put_request(message2, key2, size2),
    ensures
        message == message2,
        key == key2,
        size == size2,
{
    let a = put_request(message, key, size);
    let b = put_request(message2, key2, size2);
    assert(a[0] == message);
    assert(b[0] == message2);
    assert(a.skip(1) =~= wire_string(key) + le(size as nat, 8));
    assert(b.skip(1) =~= wire_string(key2) + le(size2 as nat, 8));
    lemma_wire_string_prefix(key, le(size as nat, 8), key2, le(size2 as nat, 8));
    lemma_span();
    number_reads_back(size as nat, 8);
    number_reads_back(size2 as nat, 8);
}

/// The messages that a client waits for.
#[derive(Debug, Clone, Copy, PartialEq, Eq, Structural)]
pub enum Expected {
    Hello,
    GetResponse,
    PutReady,
    PutResponse,
}

/// The tag of an expected message.
pub open spec fn tag_of(e: Expected) -> u8 {
    match e {
        Expected::Hello => MSG_HELLO,
        Expected::GetResponse => MSG_GET_RESP,
        Expected::PutReady => MSG_PUT_READY,
        Expected::PutResponse => MSG_PUT_RESP,
    }
}

/// What a client says when it got another message.
pub open spec fn unexpected(e: Expected) -> Seq<char> {
    match e {
        Expected::Hello => "expected RDMA HELLO, got "@,
        Expected::GetResponse => "expected RDMA GET response, got "@,
        Expected::PutReady => "expected RDMA PUT ready, got "@,
        Expected::PutResponse => "expected RDMA PUT response, got "@,
    }
}

/// Checks the tag of a message that arrived.
pub fn check_tag(tag: u8, expected: Expected) -> (r: Result<(), String>)
    ensures
        tag == tag_of(expected) ==> r is Ok,
        tag != tag_of(expected) ==> r is Err && r->Err_0@ == unexpected(expected) + decimal(
            tag as nat,
        ),
{
    let (want, head): (u8, &str) = match expected {
        Expected::Hello => (MSG_HELLO, "expected RDMA HELLO, got "),
        Expected::GetResponse => (MSG_GET_RESP, "expected RDMA GET response, got "),
        Expected::PutReady => (MSG_PUT_READY, "expected RDMA PUT ready, got "),
        Expected::PutResponse => (MSG_PUT_RESP, "expected RDMA PUT response, got "),
    };
    if tag != want {
        let mut text = head.to_owned();
        text::push_decimal(&mut text, tag as u64);
        return Err(text);
    }
    Ok(())
}

/// Reads the body of a read response: the number of bytes written, or `None` for no object. A
/// number that no buffer can have is refused.
pub fn parse_get_response(body: &[u8]) -> (r: Result<Option<usize>, String>)
    requires
        body@.len() == 13,
    ensures
        ({
            let n = le_value(body@.subrange(1, 9));
            if body@[0] == 0 {
                r == Ok::<Option<usize>, String>(None)
            } else if n <= usize::MAX {
                r == Ok::<Option<usize>, String>(Some(n as usize))
            } else {
                r is Err && r->Err_0@ == "RDMA read size exceeds usize"@
            }
        }),
{
    if body[0] == 0 {
        return Ok(None);
    }
    let n: u64 = read_le(body, 1, 8);
    if n > usize::MAX as u64 {
        return Err("RDMA read size exceeds usize".to_owned());
    }
    Ok(Some(n as usize))
}

/// The fields of a read response.
#[derive(Debug, Clone, Copy, PartialEq, Eq, Structural)]
pub struct GetResult {
    pub found: bool,
    pub bytes_written: u64,
    pub num_chunks: u32,
}

/// Reads the fields of a read response.
pub fn parse_get_result(body: &[u8]) -> (r: GetResult)
    requires
        body@.len() == 13,
    ensures
        r.found == (body@[0] != 0),
        r.bytes_written == le_value(body@.subrange(1, 9)),
        r.num_chunks == le_value(body@.subrange(9, 13)),
{
    proof {
        lemma_span();
    }
    let bytes_written: u64 = read_le(body, 1, 8);
    let num_chunks: u32 = read_le(body, 9, 4) as u32;
    GetResult { found: body[0] != 0, bytes_written, num_chunks }
}

/// Where the server wants the bytes of a write.
#[derive(Debug, Clone, Copy, PartialEq, Eq, Structural)]
pub struct PutReady {
    pub ok: bool,
    pub addr: u64,
    pub rkey: u32,
}

/// Reads the body of the answer to a write request.
pub fn parse_put_ready(body: &[u8]) -> (r: PutReady)
    requires
        body@.len() == 13,
    ensures
        r.ok == (body@[0] != 0),
        r.addr == le_value(body@.subrange(1, 9)),
        r.rkey == le_value(body@.subrange(9, 13)),
{
    proof {
        lemma_span();
    }
    let addr: u64 = read_le(body, 1, 8);
    let rkey: u32 = read_le(body, 9, 4) as u32;
    PutReady { ok: body[0] != 0, addr, rkey }
}

/// How a write goes on once the server has answered the request.
#[derive(Debug, Clone, Copy, PartialEq, Eq, Structural)]
pub enum PutNext {
    /// Write the bytes there, then commit.
    Transfer { addr: u64, rkey: u32 },
    /// The server refused: read why.
    ReadRefusal,
}

pub fn put_next(ready: PutReady) -> (r: PutNext)
    ensures
        r == (if ready.ok {
            PutNext::Transfer { addr: ready.addr, rkey: ready.rkey }
        } else {
            PutNext::ReadRefusal
        }),
{
    if ready.ok {
        PutNext::Transfer { addr: ready.addr, rkey: ready.rkey }
    } else {
        PutNext::ReadRefusal
    }
}

/// The outcome of a write that the server refused before the transfer: whether this client
/// stored the object, unless that is an error.
pub open spec fn refused_outcome(result: u8, if_not_exists: bool) -> Option<bool> {
    if if_not_exists && result == PUT_RESULT_EXISTS {
        Some(false)
    } else {
        None
    }
}

/// The outcome of a write that was transferred and committed: whether this client stored the
/// object, unless that is an error.
pub open spec fn committed_outcome(result: u8, if_not_exists: bool) -> Option<bool> {
    if result == PUT_RESULT_STORED {
        Some(true)
    } else if result == PUT_RESULT_EXISTS && if_not_exists {
        Some(false)
    } else {
        None
    }
}

/// The outcome of a write that the server refused before the transfer: `false` where the object
/// exists and must not be replaced.
pub fn refused_put(result: u8, if_not_exists: bool) -> (r: Result<bool, String>)
    ensures
        match refused_outcome(result, if_not_exists) {
            Some(stored) => r == Ok::<bool, String>(stored),
            None => r is Err && r->Err_0@ == "server rejected RDMA PUT before data transfer"@,
        },
{
    if if_not_exists && result == PUT_RESULT_EXISTS {
        return Ok(false);
    }
    Err("server rejected RDMA PUT before data transfer".to_owned())
}

/// The outcome of a write that was transferred and committed: whether this client stored the
/// object.
pub fn committed_put(result: u8, if_not_exists: bool) -> (r: Result<bool, String>)
    ensures
        match committed_outcome(result, if_not_exists) {
            Some(stored) => r == Ok::<bool, String>(stored),
            None => if result == PUT_RESULT_FAILED {
                r is Err && r->Err_0@ == "server failed to persist RDMA PUT"@
            } else {
                r is Err && r->Err_0@ == "invalid RDMA PUT result code "@ + decimal(result as nat)
            },
        },
{
    if result == PUT_RESULT_STORED {
        return Ok(true);
    }
    if result == PUT_RESULT_EXISTS && if_not_exists {
        return Ok(false);
    }
    if result == PUT_RESULT_FAILED {
        return Err("server failed to persist RDMA PUT".to_owned());
    }
    let mut text = "invalid RDMA PUT result code ".to_owned();
    text::push_decimal(&mut text, result as u64);
    Err(text)
}

/// A server's replies to one write.
pub struct PutReplies {
    /// It was ready for the transfer.
    pub ready: bool,
    /// The result that it named at the end.
    pub result: u8,
}

impl PutReplies {
    /// The outcome that the client gives.
    pub open spec fn outcome(self, if_not_exists: bool) -> Option<bool> {
        if self.ready {
            committed_outcome(self.result, if_not_exists)
        } else {
            refused_outcome(self.result, if_not_exists)
        }
    }

    /// What the replies mean for the objects that the server holds: one that exists is named so
    /// only to a conditional write, and stays; one that was stored is there, and where the write
    /// was conditional was not there before.
    pub open spec fn mean(
        self,
        before: Map<Seq<char>, Seq<u8>>,
        after: Map<Seq<char>, Seq<u8>>,
        key: Seq<char>,
        data: Seq<u8>,
        if_not_exists: bool,
    ) -> bool {
        &&& self.result == PUT_RESULT_EXISTS ==> if_not_exists && before.contains_key(key) && after
            == before
        &&& self.result == PUT_RESULT_STORED ==> self.ready && after == before.insert(key, data)
            && (if_not_exists ==> !before.contains_key(key))
    }
}

/// Once a client has stored an object by a conditional write, another conditional write of the
/// same key is not stored: where the server says that the object exists, the client answers so,
/// which is no error, and the object is still the first one.
pub proof fn conditional_write_keeps_the_first_object(
    s0: Map<Seq<char>, Seq<u8>>,
    s1: Map<Seq<char>, Seq<u8>>,
    s2: Map<Seq<char>, Seq<u8>>,
    key: Seq<char>,
    a: Seq<u8>,
    b: Seq<u8>,
    first: PutReplies,
    second: PutReplies,
)
    requires
        first.mean(s0, s1, key, a, true),
        first.outcome(true) == Some(true),
        second.mean(s1, s2, key, b, true),
    ensures
        !s0.contains_key(key),
        second.outcome(true) != Some(true),
        second.result == PUT_RESULT_EXISTS ==> second.outcome(true) == Some(false),
        second.outcome(true) == Some(false) ==> s2.contains_key(key) && s2[key] == a,
{
}

/// An ordinary write must have stored the object.
pub fn require_stored(stored: bool) -> (r: Result<(), String>)
    ensures
        stored ==> r is Ok,
        !stored ==> r is Err && r->Err_0@ == "server rejected RDMA PUT"@,
{
    if !stored {
        return Err("server rejected RDMA PUT".to_owned());
    }
    Ok(())
}

/// One remote write of a transfer.
#[derive(Debug, Clone, Copy, PartialEq, Eq, Structural)]
pub struct RemoteWrite {
    pub id: u64,
    pub src_addr: u64,
    pub src_lkey: u32,
    pub dst_addr: u64,
    pub dst_rkey: u32,
    pub len: u32,
    /// The adapter reports completion.
    pub signaled: bool,
}

/// Write `i` of a transfer of `size` bytes.
pub open spec fn remote_write(
    src: u64,
    lkey: u32,
    dst: u64,
    rkey: u32,
    size: u64,
    i: int,
) -> RemoteWrite {
    let start = i * MAX_WRITE_BYTES;
    RemoteWrite {
        id: i as u64,
        src_addr: (src + start) as u64,
        src_lkey: lkey,
        dst_addr: (dst + start) as u64,
        dst_rkey: rkey,
        len: (stripes::stripe_end(size as nat, MAX_WRITE_BYTES as nat, i) - start) as u32,
        signaled: i + 1 == stripes::stripe_count(size as nat, MAX_WRITE_BYTES as nat),
    }
}

/// Splits a transfer into remote writes of at most 1 GiB; only the last reports completion.
pub fn plan_remote_writes(src_addr: u64, src_lkey: u32, dst_addr: u64, dst_rkey: u32, size: u64) -> (r:
    Vec<RemoteWrite>)
    requires
        src_addr + size <= u64::MAX,
        dst_addr + size <= u64::MAX,
    ensures
        r@ == Seq::new(
            stripes::stripe_count(size as nat, MAX_WRITE_BYTES as nat),
            |i: int| remote_write(src_addr, src_lkey, dst_addr, dst_rkey, size, i),
        ),
{
    let n: u64 = stripes::count_stripes(size, MAX_WRITE_BYTES);
    let mut out: Vec<RemoteWrite> = Vec::new();
    let mut i: u64 = 0;
    let mut done: u64 = 0;
    while i < n
        invariant
            i <= n,
            n == stripes::stripe_count(size as nat, MAX_WRITE_BYTES as nat),
            i < n ==> done == i * MAX_WRITE_BYTES,
            done <= size,
            src_addr + size <= u64::MAX,
            dst_addr + size <= u64::MAX,
            out.len() == i,
            forall|k: int|
                0 <= k < i ==> out@[k] == remote_write(
                    src_addr,
                    src_lkey,
                    dst_addr,
                    dst_rkey,
                    size,
                    k,
                ),
        decreases n - i,
    {
        proof {
            stripes::lemma_stripe_bounds(size as nat, MAX_WRITE_BYTES as nat, i as int);
        }
        let left: u64 = size - done;
        let len: u64 = if left < MAX_WRITE_BYTES {
            left
        } else {
            MAX_WRITE_BYTES
        };
        out.push(
            RemoteWrite {
                id: i,
                src_addr: src_addr + done,
                src_lkey,
                dst_addr: dst_addr + done,
                dst_rkey,
                len: len as u32,
                signaled: i + 1 == n,
            },
        );
        done = done + len;
        i = i + 1;
    }
    proof {
        assert(out@ =~= Seq::new(
            stripes::stripe_count(size as nat, MAX_WRITE_BYTES as nat),
            |i: int| remote_write(src_addr, src_lkey, dst_addr, dst_rkey, size, i),
        ));
    }
    out
}

/// The remote writes of a transfer follow one another from the first byte to the last, on both
/// sides alike.
pub proof fn remote_writes_move_everything(
    src: u64,
    lkey: u32,
    dst: u64,
    rkey: u32,
    size: u64,
    i: int,
)
    requires
        src + size <= u64::MAX,
        dst + size <= u64::MAX,
        0 <= i < stripes::stripe_count(size as nat, MAX_WRITE_BYTES as nat),
    ensures
        ({
            let w = remote_write(src, lkey, dst, rkey, size, i);
            let next = remote_write(src, lkey, dst, rkey, size, i + 1);
            &&& w.src_addr - src == w.dst_addr - dst
            &&& 1 <= w.len <= MAX_WRITE_BYTES
            &&& i == 0 ==> w.src_addr == src
            &&& w.signaled <==> w.src_addr + w.len == src + size
            &&& !w.signaled ==> next.src_addr == w.src_addr + w.len
        }),
{
    stripes::lemma_stripe_bounds(size as nat, MAX_WRITE_BYTES as nat, i);
}

/// Where bytes can be written in a registered buffer from `offset` on, and how many fit.
pub fn buffer_destination(address: u64, len: usize, offset: usize) -> (r: Result<
    (u64, usize),
    String,
>)
    requires
        address + len <= u64::MAX,
    ensures
        if offset > len {
            r is Err && r->Err_0@ == "RDMA destination offset "@ + decimal(offset as nat)
                + " exceeds buffer length "@ + decimal(len as nat)
        } else if offset == len {
            r is Err && r->Err_0@ == "RDMA destination has no remaining capacity"@
        } else {
            r is Ok && (r->Ok_0).0 == address + offset && (r->Ok_0).1 == len - offset
        },
{
    if offset > len {
        let mut text = "RDMA destination offset ".to_owned();
        text::push_decimal(&mut text, offset as u64);
        text.append(" exceeds buffer length ");
        text::push_decimal(&mut text, len as u64);
        return Err(text);
    }
    let available: usize = len - offset;
    if available == 0 {
        return Err("RDMA destination has no remaining capacity".to_owned());
    }
    Ok((address + offset as u64, available))
}

/// Where `size` bytes from `offset` on are in a registered buffer.
pub fn buffer_source(address: u64, len: usize, offset: usize, size: usize) -> (r: Result<
    u64,
    String,
>)
    requires
        address + len <= u64::MAX,
    ensures
        if offset + size > usize::MAX {
            r is Err && r->Err_0@ == "RDMA source range overflows usize"@
        } else if offset + size > len {
            r is Err && r->Err_0@ == "RDMA source range "@ + decimal(offset as nat) + ".."@
                + decimal((offset + size) as nat) + " exceeds buffer length "@ + decimal(
                len as nat,
            )
        } else {
            r is Ok && r->Ok_0 == address + offset
        },
{
    let end: usize = match offset.checked_add(size) {
        Some(end) => end,
        None => {
            return Err("RDMA source range overflows usize".to_owned());
        },
    };
    if end > len {
        let mut text = "RDMA source range ".to_owned();
        text::push_decimal(&mut text, offset as u64);
        text.append("..");
        text::push_decimal(&mut text, end as u64);
        text.append(" exceeds buffer length ");
        text::push_decimal(&mut text, len as u64);
        return Err(text);
    }
    Ok(address + offset as u64)
}

/// How waiting for a completion goes on.
#[derive(Debug, PartialEq, Eq)]
pub enum PollNext {
    /// Ask again.
    Again,
    /// The write is complete.
    Done,
    Failed(String),
}

/// Decides over one look at the completion queue: `received` entries, of which the first has
/// this status and this number.
pub fn poll_next(received: i32, status: u32, wr_id: u64, timed_out: bool) -> (r: PollNext)
    ensures
        if received < 0 {
            r is Failed && r->Failed_0@ == "ibv_poll_cq failed"@
        } else if received > 0 {
            if status != 0 {
                r is Failed && r->Failed_0@ == "RDMA WRITE completion failed: wr_id="@ + decimal(
                    wr_id as nat,
                ) + " status="@ + decimal(status as nat)
            } else {
                r is Done
            }
        } else if timed_out {
            r is Failed && r->Failed_0@ == "RDMA WRITE completion timed out"@
        } else {
            r is Again
        },
{
    if received < 0 {
        return PollNext::Failed("ibv_poll_cq failed".to_owned());
    }
    if received > 0 {
        if status != 0 {
            let mut text = "RDMA WRITE completion failed: wr_id=".to_owned();
            text::push_decimal(&mut text, wr_id);
            text.append(" status=");
            text::push_decimal(&mut text, status as u64);
            return PollNext::Failed(text);
        }
        return PollNext::Done;
    }
    if timed_out {
        return PollNext::Failed("RDMA WRITE completion timed out".to_owned());
    }
    PollNext::Again
}

} // verus!
