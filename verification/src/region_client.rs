//! The calls of the C interface of the RDMA client: what each of them sends, and what it makes of
//! the answers. The caller has the connection and the adapter.
use crate::pb;
use crate::regions;
use crate::regions::{read_name, region_at, ExternalRegion, RegionRead, RegionTable};
use crate::stripes::stripe_count;
use crate::text;
use crate::text::{byte_len, decimal};
use crate::wire;
use crate::wire::{
    descriptor_get_request, descriptor_request_fault, le, le_value, remote_write, PollNext,
    RemoteWrite, MAX_WRITE_BYTES, MSG_GET_REQ, MSG_PUT_REQ,
};
use vstd::prelude::*;
use vstd::string::*;
use vstd::utf8::*;

verus! {

/// The buffer that comes with a client.
#[derive(Debug, Clone, Copy, PartialEq, Eq, Structural)]
pub struct OwnBuffer {
    pub address: u64,
    pub size: u64,
    pub rkey: u32,
}

/// A read request as the C interface sends it: the length of the key is cut to two bytes.
pub open spec fn unchecked_get(key: Seq<char>, addr: u64, rkey: u32, max_size: u64) -> Seq<u8> {
    seq![MSG_GET_REQ] + le(byte_len(key), 2) + encode_utf8(key) + le(addr as nat, 8) + le(
        rkey as nat,
        4,
    ) + le(max_size as nat, 8)
}

/// Why a read into a region cannot be asked for.
pub open spec fn read_fault(
    region: Option<ExternalRegion>,
    op: RegionRead,
    region_id: u32,
    offset: u64,
    connected: bool,
) -> Option<Seq<char>> {
    match region {
        None => Some(read_name(op) + ": invalid region_id "@ + decimal(region_id as nat)),
        Some(r) => if offset >= r.size {
            Some(
                read_name(op) + ": offset "@ + decimal(offset as nat) + " >= region size "@
                    + decimal(r.size as nat),
            )
        } else if !connected {
            Some("not connected"@)
        } else {
            None
        },
    }
}

fn not_connected() -> (r: String)
    ensures
        r@ == "not connected"@,
{
    "not connected".to_owned()
}

/// The request for an object that goes to the client's own buffer.
pub fn get(connected: bool, own: OwnBuffer, key: &str) -> (r: Result<Vec<u8>, String>)
    ensures
        if connected {
            r is Ok && r->Ok_0@ == unchecked_get(key@, own.address, own.rkey, own.size)
        } else {
            r is Err && r->Err_0@ == "not connected"@
        },
{
    if !connected {
        return Err(not_connected());
    }
    Ok(wire::build_unchecked_get_request(key, own.address, own.rkey, own.size))
}

/// The request for an object that goes to a registered region, from `offset` on.
pub fn get_into(
    connected: bool,
    table: &RegionTable,
    region_id: u32,
    key: &str,
    offset: u64,
) -> (r: Result<Vec<u8>, String>)
    requires
        table.wf(),
        offset <= usize::MAX,
    ensures
        ({
            let region = region_at(table.slots(), region_id as int);
            match read_fault(region, RegionRead::GetInto, region_id, offset, connected) {
                Some(e) => r is Err && r->Err_0@ == e,
                None => r is Ok && r->Ok_0@ == unchecked_get(
                    key@,
                    (region->0.address + offset) as u64,
                    region->0.rkey,
                    (region->0.size - offset) as u64,
                ),
            }
        }),
{
    let target = match table.read_target(RegionRead::GetInto, region_id, offset) {
        Ok(t) => t,
        Err(e) => {
            return Err(e);
        },
    };
    if !connected {
        return Err(not_connected());
    }
    Ok(wire::build_unchecked_get_request(key, target.addr, target.rkey, target.available))
}

/// The length of the first text of a descriptor request that is too long.
pub open spec fn fault_len(key: Seq<char>, d: pb::DescriptorView) -> nat {
    if byte_len(key) > u16::MAX {
        byte_len(key)
    } else if byte_len(d.object_handle) > u16::MAX {
        byte_len(d.object_handle)
    } else {
        byte_len(d.content_etag)
    }
}

fn overlong(field: &str, n: usize) -> (r: String)
    ensures
        r@ == field@ + " too long: "@ + decimal(n as nat),
{
    let mut out = field.to_owned();
    out.append(" too long: ");
    text::push_decimal(&mut out, n as u64);
    out
}

/// A request for one version of an object.
pub fn descriptor_frame(
    key: &str,
    descriptor: &pb::ObjectDescriptor,
    addr: u64,
    rkey: u32,
    max_size: u64,
) -> (r: Result<Vec<u8>, String>)
    ensures
        match descriptor_request_fault(key@, descriptor@) {
            Some(field) => r is Err && r->Err_0@ == field + " too long: "@ + decimal(
                fault_len(key@, descriptor@),
            ),
            None => r is Ok && r->Ok_0@ == descriptor_get_request(
                key@,
                descriptor@,
                addr,
                rkey,
                max_size,
            ),
        },
{
    match wire::build_descriptor_get_request(key, descriptor, addr, rkey, max_size) {
        Ok(frame) => Ok(frame),
        Err(_) => {
            let in_key: usize = key.as_bytes().len();
            if in_key > 65535 {
                return Err(overlong("key", in_key));
            }
            let in_handle: usize = descriptor.object_handle.as_str().as_bytes().len();
            if in_handle > 65535 {
                return Err(overlong("object_handle", in_handle));
            }
            let in_etag: usize = descriptor.content_etag.as_str().as_bytes().len();
            Err(overlong("content_etag", in_etag))
        },
    }
}

/// The request for one version of an object that goes to the client's own buffer.
pub fn get_descriptor(
    connected: bool,
    own: OwnBuffer,
    key: &str,
    descriptor: &pb::ObjectDescriptor,
) -> (r: Result<Vec<u8>, String>)
    ensures
        if !connected {
            r is Err && r->Err_0@ == "not connected"@
        } else {
            match descriptor_request_fault(key@, descriptor@) {
                Some(field) => r is Err && r->Err_0@ == field + " too long: "@ + decimal(
                    fault_len(key@, descriptor@),
                ),
                None => r is Ok && r->Ok_0@ == descriptor_get_request(
                    key@,
                    descriptor@,
                    own.address,
                    own.rkey,
                    own.size,
                ),
            }
        },
{
    if !connected {
        return Err(not_connected());
    }
    descriptor_frame(key, descriptor, own.address, own.rkey, own.size)
}

/// The request for one version of an object that goes to a registered region, from `offset` on.
pub fn get_descriptor_into(
    connected: bool,
    table: &RegionTable,
    region_id: u32,
    key: &str,
    descriptor: &pb::ObjectDescriptor,
    offset: u64,
) -> (r: Result<Vec<u8>, String>)
    requires
        table.wf(),
        offset <= usize::MAX,
    ensures
        ({
            let region = region_at(table.slots(), region_id as int);
            match read_fault(region, RegionRead::GetDescriptorInto, region_id, offset, connected) {
                Some(e) => r is Err && r->Err_0@ == e,
                None => match descriptor_request_fault(key@, descriptor@) {
                    Some(field) => r is Err && r->Err_0@ == field + " too long: "@ + decimal(
                        fault_len(key@, descriptor@),
                    ),
                    None => r is Ok && r->Ok_0@ == descriptor_get_request(
                        key@,
                        descriptor@,
                        (region->0.address + offset) as u64,
                        region->0.rkey,
                        (region->0.size - offset) as u64,
                    ),
                },
            }
        }),
{
    let target = match table.read_target(RegionRead::GetDescriptorInto, region_id, offset) {
        Ok(t) => t,
        Err(e) => {
            return Err(e);
        },
    };
    if !connected {
        return Err(not_connected());
    }
    descriptor_frame(key, descriptor, target.addr, target.rkey, target.available)
}

/// A write from a registered region that is under way.
#[derive(Debug, Clone, Copy, PartialEq, Eq, Structural)]
pub struct RegionPut {
    pub source: u64,
    pub lkey: u32,
    pub size: u64,
}

impl RegionPut {
    /// The bytes lie inside the address space.
    pub open spec fn wf(self) -> bool {
        self.source + self.size <= u64::MAX
    }
}

/// How a write goes on once the server has answered its request.
#[derive(Debug, PartialEq, Eq)]
pub enum ReadyNext {
    /// Write these, wait for the last of them, then commit.
    Transfer(Vec<RemoteWrite>),
    /// Take in two more bytes and give up.
    ReadRefusal,
}

/// Why a write cannot begin.
pub open spec fn put_fault(
    region: Option<ExternalRegion>,
    region_id: u32,
    offset: u64,
    size: u64,
    queue_pair: bool,
    connected: bool,
) -> Option<Seq<char>> {
    match region {
        None => Some("put: invalid region_id "@ + decimal(region_id as nat)),
        Some(r) => if offset + size > r.size {
            Some(
                "put: offset "@ + decimal(offset as nat) + " + size "@ + decimal(size as nat)
                    + " > region size "@ + decimal(r.size as nat),
            )
        } else if !queue_pair {
            Some("put: QP not initialized"@)
        } else if !connected {
            Some("not connected"@)
        } else {
            None
        },
    }
}

/// Begins a write of `size` bytes of a region, from `offset` on: the write, and its request.
pub fn put(
    queue_pair: bool,
    connected: bool,
    table: &RegionTable,
    region_id: u32,
    key: &str,
    offset: u64,
    size: u64,
) -> (r: Result<(RegionPut, Vec<u8>), String>)
    requires
        table.wf(),
        region_at(table.slots(), region_id as int) is Some ==> offset + size <= u64::MAX,
    ensures
        ({
            let region = region_at(table.slots(), region_id as int);
            match put_fault(region, region_id, offset, size, queue_pair, connected) {
                Some(e) => r is Err && r->Err_0@ == e,
                None => {
                    &&& r is Ok
                    &&& (r->Ok_0).0 == (RegionPut {
                        source: (region->0.address + offset) as u64,
                        lkey: region->0.lkey,
                        size,
                    })
                    &&& (r->Ok_0).0.wf()
                    &&& (r->Ok_0).1@ == seq![MSG_PUT_REQ] + le(byte_len(key@), 2) + encode_utf8(
                        key@,
                    ) + le(size as nat, 8)
                },
            }
        }),
{
    let (source, lkey) = match table.put_source(region_id, offset, size) {
        Ok(s) => s,
        Err(e) => {
            return Err(e);
        },
    };
    proof {
        assert(table.slots()[region_id as int] is Some);
    }
    if !queue_pair {
        return Err("put: QP not initialized".to_owned());
    }
    if !connected {
        return Err(not_connected());
    }
    Ok((RegionPut { source, lkey, size }, wire::build_unchecked_put_request(key, size)))
}

impl RegionPut {
    /// Takes in the body of the server's answer to the request.
    pub fn ready(&self, body: &[u8]) -> (r: ReadyNext)
        requires
            self.wf(),
            body@.len() == 13,
            body@[0] != 0 ==> le_value(body@.subrange(1, 9)) + self.size <= u64::MAX,
        ensures
            if body@[0] == 0 {
                r is ReadRefusal
            } else {
                &&& r is Transfer
                &&& r->Transfer_0@ == Seq::new(
                    stripe_count(self.size as nat, MAX_WRITE_BYTES as nat),
                    |i: int|
                        remote_write(
                            self.source,
                            self.lkey,
                            le_value(body@.subrange(1, 9)) as u64,
                            le_value(body@.subrange(9, 13)) as u32,
                            self.size,
                            i,
                        ),
                )
            },
    {
        let ready = wire::parse_put_ready(body);
        if !ready.ok {
            return ReadyNext::ReadRefusal;
        }
        let writes = wire::plan_remote_writes(
            self.source,
            self.lkey,
            ready.addr,
            ready.rkey,
            self.size,
        );
        proof {
            assert(ready.addr == le_value(body@.subrange(1, 9)) as u64);
            assert(ready.rkey == le_value(body@.subrange(9, 13)) as u32);
        }
        ReadyNext::Transfer(writes)
    }

    /// What is said of a write that the server refused.
    pub fn refused() -> (r: String)
        ensures
            r@ == "server PUT_READY rejected"@,
    {
        "server PUT_READY rejected".to_owned()
    }

    /// Judges what the adapter says to a write that was handed to it.
    pub fn posted(rc: i32) -> (r: Result<(), String>)
        ensures
            rc == 0 ==> r is Ok,
            rc != 0 ==> r is Err && r->Err_0@ == "ibv_post_send (PUT WRITE) rc="@
                + text::signed_decimal(rc as int),
    {
        if rc != 0 {
            let mut out = "ibv_post_send (PUT WRITE) rc=".to_owned();
            text::push_signed(&mut out, rc as i64);
            return Err(out);
        }
        Ok(())
    }

    /// Decides over one look at the completion queue: `received` entries, of which the first
    /// has this status and this number, after so many full seconds.
    pub fn completion(received: i32, status: u32, wr_id: u64, waited_secs: u64) -> (r: PollNext)
        ensures
            if received < 0 {
                r is Failed && r->Failed_0@ == "ibv_poll_cq error"@
            } else if received > 0 {
                if status != 0 {
                    r is Failed && r->Failed_0@ == "RDMA WRITE wr_id="@ + decimal(wr_id as nat)
                        + " status="@ + decimal(status as nat)
                } else {
                    r is Done
                }
            } else if waited_secs > 30 {
                r is Failed && r->Failed_0@ == "RDMA WRITE poll_cq timeout 30s"@
            } else {
                r is Again
            },
    {
        if received < 0 {
            return PollNext::Failed("ibv_poll_cq error".to_owned());
        }
        if received > 0 {
            if status != 0 {
                let mut out = "RDMA WRITE wr_id=".to_owned();
                text::push_decimal(&mut out, wr_id);
                out.append(" status=");
                text::push_decimal(&mut out, status as u64);
                return PollNext::Failed(out);
            }
            return PollNext::Done;
        }
        if waited_secs > 30 {
            return PollNext::Failed("RDMA WRITE poll_cq timeout 30s".to_owned());
        }
        PollNext::Again
    }
}

/// A write that is accepted moves exactly the bytes that were asked for, from the region they
/// were registered in: the first remote write starts at the offset, each of the others where the
/// one before it ends, and the last ends after `size` bytes, inside the region.
pub proof fn put_moves_the_requested_bytes(
    region: ExternalRegion,
    offset: u64,
    put: RegionPut,
    dst: u64,
    rkey: u32,
    i: int,
)
    requires
        region.wf(),
        offset + put.size <= region.size,
        put.source == region.address + offset,
        put.lkey == region.lkey,
        dst + put.size <= u64::MAX,
        0 <= i < stripe_count(put.size as nat, MAX_WRITE_BYTES as nat),
    ensures
        ({
            let w = remote_write(put.source, put.lkey, dst, rkey, put.size, i);
            let next = remote_write(put.source, put.lkey, dst, rkey, put.size, i + 1);
            &&& w.src_lkey == region.lkey
            &&& region.address + offset <= w.src_addr
            &&& w.src_addr + w.len <= region.address + region.size
            &&& w.src_addr - put.source == w.dst_addr - dst
            &&& i == 0 ==> w.src_addr == region.address + offset
            &&& w.signaled <==> w.src_addr + w.len == region.address + offset + put.size
            &&& !w.signaled ==> next.src_addr == w.src_addr + w.len
        }),
{
    wire::remote_writes_move_everything(put.source, put.lkey, dst, rkey, put.size, i);
    crate::stripes::lemma_stripe_bounds(put.size as nat, MAX_WRITE_BYTES as nat, i);
}

/// The code of a call that answers with nothing but success: zero, or -1 for a bad argument, -2
/// for a text that is not UTF-8, -3 for a failure.
pub fn plain_code(arguments_ok: bool, texts_ok: bool, done: bool) -> (r: i32)
    ensures
        r == (if !arguments_ok {
            -1
        } else if !texts_ok {
            -2
        } else if !done {
            -3
        } else {
            0int
        }),
{
    if !arguments_ok {
        -1
    } else if !texts_ok {
        -2
    } else if !done {
        -3
    } else {
        0
    }
}

/// The number that a registration is answered with: that of the region, or -1.
pub fn region_code(registered: Option<u32>) -> (r: i32)
    ensures
        match registered {
            Some(id) => r == id as i32,
            None => r == -1,
        },
{
    match registered {
        Some(id) => id as i32,
        None => -1,
    }
}

/// The code of ending a registration: zero, or -1 for a bad argument, -2 where there was none.
pub fn unregister_code(arguments_ok: bool, done: bool) -> (r: i32)
    ensures
        r == (if !arguments_ok {
            -1
        } else if !done {
            -2
        } else {
            0int
        }),
{
    if !arguments_ok {
        -1
    } else if !done {
        -2
    } else {
        0
    }
}

/// Takes in the answer to a read: the bytes that it delivered, none where there is no object.
pub fn get_answered(tag: u8, body: &[u8]) -> (r: Result<u64, String>)
    requires
        body@.len() == 13,
    ensures
        if tag != wire::MSG_GET_RESP {
            r is Err && r->Err_0@ == "expected GET_RESP, got "@ + decimal(tag as nat)
        } else {
            r is Ok && r->Ok_0 == (if body@[0] == 0 {
                0
            } else {
                le_value(body@.subrange(1, 9))
            })
        },
{
    match regions::check_awaited(tag, regions::Awaited::GetResponse) {
        Ok(_) => Ok(regions::delivered(body)),
        Err(e) => Err(e),
    }
}

} // verus!
