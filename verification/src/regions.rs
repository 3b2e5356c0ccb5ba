//! The C interface of the RDMA client: the buffers that a caller has registered, and the codes
//! that it is answered with.
use crate::text;
use crate::text::decimal;
use crate::wire;
use crate::wire::le_value;
use vstd::prelude::*;
use vstd::string::*;

verus! {

/// A buffer of the caller that the adapter may access.
#[derive(Debug, Clone, Copy, PartialEq, Eq, Structural)]
pub struct ExternalRegion {
    /// The adapter's handle of the registration.
    pub handle: u64,
    pub address: u64,
    pub size: usize,
    pub lkey: u32,
    pub rkey: u32,
}

impl ExternalRegion {
    /// The buffer does not wrap around the address space.
    pub open spec fn wf(self) -> bool {
        self.address + self.size <= u64::MAX
    }
}

/// The registered buffers, by number. A number that was given back is used again.
pub struct RegionTable {
    slots: Vec<Option<ExternalRegion>>,
}

/// The first free number: the first hole, or one past the end.
pub open spec fn first_free(s: Seq<Option<ExternalRegion>>) -> int
    decreases s.len(),
{
    if s.len() == 0 {
        0
    } else if s[0] is None {
        0
    } else {
        1 + first_free(s.skip(1))
    }
}

proof fn lemma_first_free(s: Seq<Option<ExternalRegion>>, i: int)
    requires
        0 <= i <= s.len(),
        forall|k: int| 0 <= k < i ==> (#[trigger] s[k]) is Some,
        i < s.len() ==> s[i] is None,
    ensures
        first_free(s) == i,
    decreases s.len(),
{
    if i > 0 {
        assert(s[0] is Some);
        assert forall|k: int| 0 <= k < i - 1 implies (#[trigger] s.skip(1)[k]) is Some by {
            assert(s[k + 1] is Some);
        }
        lemma_first_free(s.skip(1), i - 1);
    }
}

/// The region under a number, if there is one.
pub open spec fn region_at(s: Seq<Option<ExternalRegion>>, id: int) -> Option<ExternalRegion> {
    if 0 <= id < s.len() {
        s[id]
    } else {
        None
    }
}

/// Checks a buffer before it is registered with the adapter.
pub fn check_register(address: u64, size: usize) -> (r: Result<(), String>)
    ensures
        address != 0 && size != 0 ==> r is Ok,
        address == 0 || size == 0 ==> r is Err && r->Err_0@
            == "register_external: null ptr or zero size"@,
{
    if address == 0 || size == 0 {
        return Err("register_external: null ptr or zero size".to_owned());
    }
    Ok(())
}

fn region_error(head: &str, id: u32, tail: &str) -> (r: String)
    ensures
        r@ == head@ + decimal(id as nat) + tail@,
{
    let mut text = head.to_owned();
    text::push_decimal(&mut text, id as u64);
    text.append(tail);
    text
}

/// The operations that name a region.
#[derive(Debug, Clone, Copy, PartialEq, Eq, Structural)]
pub enum RegionRead {
    GetInto,
    GetDescriptorInto,
}

/// The name of an operation in messages.
pub open spec fn read_name(op: RegionRead) -> Seq<char> {
    match op {
        RegionRead::GetInto => "get_into"@,
        RegionRead::GetDescriptorInto => "get_descriptor_into"@,
    }
}

fn read_name_str(op: RegionRead) -> (r: &'static str)
    ensures
        r@ == read_name(op),
{
    match op {
        RegionRead::GetInto => "get_into",
        RegionRead::GetDescriptorInto => "get_descriptor_into",
    }
}

/// Where a read puts its bytes.
#[derive(Debug, Clone, Copy, PartialEq, Eq, Structural)]
pub struct ReadTarget {
    pub addr: u64,
    pub rkey: u32,
    pub available: u64,
}

impl RegionTable {
    pub closed spec fn slots(&self) -> Seq<Option<ExternalRegion>> {
        self.slots@
    }

    /// No buffer wraps around the address space.
    pub open spec fn wf(&self) -> bool {
        forall|i: int|
            0 <= i < self.slots().len() && (#[trigger] self.slots()[i]) is Some
                ==> self.slots()[i]->0.wf()
    }

    pub fn new() -> (r: RegionTable)
        ensures
            r.wf(),
            r.slots().len() == 0,
    {
        RegionTable { slots: Vec::new() }
    }

    /// Enters a region under the first free number.
    pub fn register_external(&mut self, region: ExternalRegion) -> (id: u32)
        requires
            old(self).wf(),
            region.wf(),
            old(self).slots().len() < u32::MAX,
        ensures
            final(self).wf(),
            id == first_free(old(self).slots()),
            final(self).slots() == (if id < old(self).slots().len() {
                old(self).slots().update(id as int, Some(region))
            } else {
                old(self).slots().push(Some(region))
            }),
            region_at(final(self).slots(), id as int) == Some(region),
            region_at(old(self).slots(), id as int) is None,
    {
        let ghost before = self.slots@;
        let mut i: usize = 0;
        while i < self.slots.len()
            invariant
                i <= self.slots.len(),
                self.slots@ == before,
                before == old(self).slots@,
                before.len() < u32::MAX,
                old(self).wf(),
                region.wf(),
                forall|k: int| 0 <= k < i ==> (#[trigger] before[k]) is Some,
            decreases self.slots.len() - i,
        {
            if self.slots[i].is_none() {
                self.slots.set(i, Some(region));
                proof {
                    lemma_first_free(before, i as int);
                    assert forall|k: int|
                        0 <= k < self.slots@.len() && (
                        #[trigger] self.slots@[k]) is Some implies self.slots@[k]->0.wf() by {
                        if k != i {
                            assert(old(self).slots()[k] is Some);
                        }
                    }
                }
                return i as u32;
            }
            i = i + 1;
        }
        self.slots.push(Some(region));
        proof {
            lemma_first_free(before, i as int);
            assert forall|k: int|
                0 <= k < self.slots@.len() && (
                #[trigger] self.slots@[k]) is Some implies self.slots@[k]->0.wf() by {
                if k < before.len() {
                    assert(old(self).slots()[k] is Some);
                }
            }
        }
        i as u32
    }

    /// Takes a region out, so that the adapter can forget it.
    pub fn unregister_external(&mut self, region_id: u32) -> (r: Result<ExternalRegion, String>)
        requires
            old(self).wf(),
        ensures
            final(self).wf(),
            if region_id >= old(self).slots().len() {
                r is Err && r->Err_0@ == "unregister: invalid region_id "@ + decimal(
                    region_id as nat,
                ) && final(self).slots() == old(self).slots()
            } else {
                match old(self).slots()[region_id as int] {
                    Some(region) => r == Ok::<ExternalRegion, String>(region) && final(self).slots() == old(self).slots().update(region_id as int, None),
                    None => r is Err && r->Err_0@ == "unregister: region_id "@ + decimal(
                        region_id as nat,
                    ) + " already unregistered"@ && final(self).slots() == old(self).slots(),
                }
            },
    {
        if region_id as u64 >= self.slots.len() as u64 {
            let message = region_error("unregister: invalid region_id ", region_id, "");
            proof {
                reveal_strlit("");
                assert(message@ =~= "unregister: invalid region_id "@ + decimal(region_id as nat));
            }
            return Err(message);
        }
        let i: usize = region_id as usize;
        match self.slots[i] {
            Some(region) => {
                let ghost before = self.slots@;
                self.slots.set(i, None);
                proof {
                    assert forall|k: int|
                        0 <= k < self.slots@.len() && (
                        #[trigger] self.slots@[k]) is Some implies self.slots@[k]->0.wf() by {
                        assert(old(self).slots()[k] is Some);
                    }
                }
                Ok(region)
            },
            None => Err(
                region_error("unregister: region_id ", region_id, " already unregistered"),
            ),
        }
    }

    fn region(&self, region_id: u32) -> (r: Option<ExternalRegion>)
        ensures
            r == region_at(self.slots(), region_id as int),
    {
        if region_id as u64 >= self.slots.len() as u64 {
            return None;
        }
        self.slots[region_id as usize]
    }

    /// Where a read into a region puts its bytes: from `offset` on, at most to the end.
    pub fn read_target(&self, op: RegionRead, region_id: u32, offset: u64) -> (r: Result<
        ReadTarget,
        String,
    >)
        requires
            self.wf(),
            offset <= usize::MAX,
        ensures
            match region_at(self.slots(), region_id as int) {
                None => r is Err && r->Err_0@ == read_name(op) + ": invalid region_id "@ + decimal(
                    region_id as nat,
                ),
                Some(region) => if offset >= region.size {
                    r is Err && r->Err_0@ == read_name(op) + ": offset "@ + decimal(offset as nat)
                        + " >= region size "@ + decimal(region.size as nat)
                } else {
                    r == Ok::<ReadTarget, String>(
                        ReadTarget {
                            addr: (region.address + offset) as u64,
                            rkey: region.rkey,
                            available: (region.size - offset) as u64,
                        },
                    )
                },
            },
    {
        match self.region(region_id) {
            None => {
                let mut text = read_name_str(op).to_owned();
                text.append(": invalid region_id ");
                text::push_decimal(&mut text, region_id as u64);
                Err(text)
            },
            Some(region) => {
                if offset >= region.size as u64 {
                    let mut text = read_name_str(op).to_owned();
                    text.append(": offset ");
                    text::push_decimal(&mut text, offset);
                    text.append(" >= region size ");
                    text::push_decimal(&mut text, region.size as u64);
                    return Err(text);
                }
                proof {
                    assert(self.slots()[region_id as int] is Some);
                }
                Ok(
                    ReadTarget {
                        addr: region.address + offset,
                        rkey: region.rkey,
                        available: region.size as u64 - offset,
                    },
                )
            },
        }
    }

    /// Where the bytes of a write are: address and key.
    pub fn put_source(&self, region_id: u32, offset: u64, size: u64) -> (r: Result<
        (u64, u32),
        String,
    >)
        requires
            self.wf(),
            region_at(self.slots(), region_id as int) is Some ==> offset + size <= u64::MAX,
        ensures
            match region_at(self.slots(), region_id as int) {
                None => r is Err && r->Err_0@ == "put: invalid region_id "@ + decimal(
                    region_id as nat,
                ),
                Some(region) => if offset + size > region.size {
                    r is Err && r->Err_0@ == "put: offset "@ + decimal(offset as nat) + " + size "@
                        + decimal(size as nat) + " > region size "@ + decimal(region.size as nat)
                } else {
                    r == Ok::<(u64, u32), String>(
                        ((region.address + offset) as u64, region.lkey),
                    )
                },
            },
    {
        match self.region(region_id) {
            None => {
                let mut text = "put: invalid region_id ".to_owned();
                text::push_decimal(&mut text, region_id as u64);
                Err(text)
            },
            Some(region) => {
                if offset + size > region.size as u64 {
                    let mut text = "put: offset ".to_owned();
                    text::push_decimal(&mut text, offset);
                    text.append(" + size ");
                    text::push_decimal(&mut text, size);
                    text.append(" > region size ");
                    text::push_decimal(&mut text, region.size as u64);
                    return Err(text);
                }
                proof {
                    assert(self.slots()[region_id as int] is Some);
                }
                Ok((region.address + offset, region.lkey))
            },
        }
    }
}

/// Registering and unregistering a region leaves all others, and their numbers, as they are.
pub proof fn regions_keep_their_numbers(
    s: Seq<Option<ExternalRegion>>,
    region: ExternalRegion,
    other: int,
)
    requires
        region_at(s, other) is Some,
    ensures
        ({
            let id = first_free(s);
            let after = if id < s.len() {
                s.update(id, Some(region))
            } else {
                s.push(Some(region))
            };
            &&& id != other
            &&& region_at(after, other) == region_at(s, other)
        }),
{
    lemma_first_free_is_free(s);
}

proof fn lemma_first_free_is_free(s: Seq<Option<ExternalRegion>>)
    ensures
        0 <= first_free(s) <= s.len(),
        first_free(s) < s.len() ==> s[first_free(s)] is None,
    decreases s.len(),
{
    if s.len() > 0 && s[0] is Some {
        lemma_first_free_is_free(s.skip(1));
    }
}

/// The bytes that a read delivered; none where there is no object.
pub fn delivered(body: &[u8]) -> (r: u64)
    requires
        body@.len() == 13,
    ensures
        r == (if body@[0] == 0 {
            0
        } else {
            le_value(body@.subrange(1, 9))
        }),
{
    let answer = wire::parse_get_result(body);
    if answer.found {
        answer.bytes_written
    } else {
        0
    }
}

/// The answers that the C interface waits for.
#[derive(Debug, Clone, Copy, PartialEq, Eq, Structural)]
pub enum Awaited {
    Hello,
    GetResponse,
    PutReady,
    PutResponse,
}

/// What the C interface says when it got another answer.
pub open spec fn awaited_text(a: Awaited) -> Seq<char> {
    match a {
        Awaited::Hello => "expected HELLO, got "@,
        Awaited::GetResponse => "expected GET_RESP, got "@,
        Awaited::PutReady => "expected PUT_READY=5, got "@,
        Awaited::PutResponse => "expected PUT_RESP=7, got "@,
    }
}

/// The tag of an awaited answer.
pub open spec fn awaited_tag(a: Awaited) -> u8 {
    match a {
        Awaited::Hello => wire::MSG_HELLO,
        Awaited::GetResponse => wire::MSG_GET_RESP,
        Awaited::PutReady => wire::MSG_PUT_READY,
        Awaited::PutResponse => wire::MSG_PUT_RESP,
    }
}

/// Checks the tag of an answer.
pub fn check_awaited(tag: u8, awaited: Awaited) -> (r: Result<(), String>)
    ensures
        tag == awaited_tag(awaited) ==> r is Ok,
        tag != awaited_tag(awaited) ==> r is Err && r->Err_0@ == awaited_text(awaited) + decimal(
            tag as nat,
        ),
{
    let (want, head): (u8, &str) = match awaited {
        Awaited::Hello => (wire::MSG_HELLO, "expected HELLO, got "),
        Awaited::GetResponse => (wire::MSG_GET_RESP, "expected GET_RESP, got "),
        Awaited::PutReady => (wire::MSG_PUT_READY, "expected PUT_READY=5, got "),
        Awaited::PutResponse => (wire::MSG_PUT_RESP, "expected PUT_RESP=7, got "),
    };
    if tag != want {
        let mut text = head.to_owned();
        text::push_decimal(&mut text, tag as u64);
        return Err(text);
    }
    Ok(())
}

/// The outcome of a write that was committed, as the C interface sees it: any code but zero is
/// success.
pub fn put_outcome(result: u8) -> (r: Result<(), String>)
    ensures
        result != 0 ==> r is Ok,
        result == 0 ==> r is Err && r->Err_0@ == "server PUT_RESP ok=false (pwrite failed)"@,
{
    if result == 0 {
        return Err("server PUT_RESP ok=false (pwrite failed)".to_owned());
    }
    Ok(())
}

/// The code of a call that moves bytes: their number, or -1 for a bad argument, -2 for a text
/// that is not UTF-8, -3 for a failure.
pub fn transfer_code(arguments_ok: bool, texts_ok: bool, result: Result<u64, ()>) -> (r: i64)
    ensures
        if !arguments_ok {
            r == -1
        } else if !texts_ok {
            r == -2
        } else {
            match result {
                Ok(n) => r == n as i64,
                Err(_) => r == -3,
            }
        },
{
    if !arguments_ok {
        return -1;
    }
    if !texts_ok {
        return -2;
    }
    match result {
        Ok(n) => n as i64,
        Err(_) => -3,
    }
}

} // verus!
