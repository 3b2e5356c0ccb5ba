//! The RDMA benchmark: what it asks for, what it makes of the answers, and its summary.
use crate::pb;
use crate::regions;
use crate::regions::Awaited;
use crate::stripes;
use crate::stripes::{stripe_count, stripe_end};
use crate::text;
use crate::text::{byte_len, comes_before, decimal};
use crate::wire;
use crate::wire::{le, le_value, MSG_GET_REQ, MSG_GET_RESP};
use vstd::prelude::*;
use vstd::string::*;
use vstd::utf8::encode_utf8;

verus! {

/// What is measured.
#[derive(Clone, Copy, PartialEq, Eq, Structural, Debug)]
pub enum Mode {
    Get,
    Put,
}

/// Reads the name of a mode.
pub fn parse_mode(mode: &str) -> (r: Result<Mode, String>)
    ensures
        if mode@ == "get"@ {
            r == Ok::<Mode, String>(Mode::Get)
        } else if mode@ == "put"@ {
            r == Ok::<Mode, String>(Mode::Put)
        } else {
            r is Err && r->Err_0@ == "unknown --mode "@ + mode@ + " (expected get|put)"@
        },
{
    proof {
        reveal_strlit("get");
        reveal_strlit("put");
        assert("get"@[0] != "put"@[0]);
    }
    if text::same(mode, "put") {
        return Ok(Mode::Put);
    }
    if text::same(mode, "get") {
        return Ok(Mode::Get);
    }
    let mut out = "unknown --mode ".to_owned();
    out.append(mode);
    out.append(" (expected get|put)");
    Err(out)
}

/// Checks the arguments of a write benchmark, which has a single server and names its object.
pub fn check_put_args(has_coordinator: bool, has_namespace: bool, has_object_key: bool) -> (r: Result<
    (),
    String,
>)
    ensures
        if has_coordinator {
            r is Err && r->Err_0@
                == "--mode put does not support --coordinator (single endpoint only)"@
        } else if !has_namespace {
            r is Err && r->Err_0@ == "--mode put requires --namespace"@
        } else if !has_object_key {
            r is Err && r->Err_0@ == "--mode put requires --object-key"@
        } else {
            r is Ok
        },
{
    if has_coordinator {
        return Err(
            "--mode put does not support --coordinator (single endpoint only)".to_owned(),
        );
    }
    if !has_namespace {
        return Err("--mode put requires --namespace".to_owned());
    }
    if !has_object_key {
        return Err("--mode put requires --object-key".to_owned());
    }
    Ok(())
}

/// Checks the arguments of a read from several servers.
pub fn check_coordinator_args(has_namespace: bool, has_object_key: bool) -> (r: Result<(), String>)
    ensures
        if !has_namespace {
            r is Err && r->Err_0@ == "--coordinator requires --namespace"@
        } else if !has_object_key {
            r is Err && r->Err_0@ == "--coordinator requires --object-key"@
        } else {
            r is Ok
        },
{
    if !has_namespace {
        return Err("--coordinator requires --namespace".to_owned());
    }
    if !has_object_key {
        return Err("--coordinator requires --object-key".to_owned());
    }
    Ok(())
}

/// The key of the object that one round writes; every round writes another one.
pub fn round_key(object_key: &str, round: usize) -> (r: String)
    ensures
        r@ == object_key@ + "-i"@ + decimal(round as nat),
{
    let mut out = object_key.to_owned();
    out.append("-i");
    text::push_decimal(&mut out, round as u64);
    out
}

/// Rounds write under different keys.
pub proof fn rounds_have_different_keys(object_key: Seq<char>, a: nat, b: nat)
    requires
        a != b,
    ensures
        object_key + "-i"@ + decimal(a) != object_key + "-i"@ + decimal(b),
{
    let head = object_key + "-i"@;
    if head + decimal(a) == head + decimal(b) {
        assert(decimal(a) =~= (head + decimal(a)).skip(head.len() as int));
        assert(decimal(b) =~= (head + decimal(b)).skip(head.len() as int));
        text::lemma_decimal_injective(a, b);
    }
}

/// The test pattern: bytes count up to 250 and start over.
pub open spec fn pattern(size: nat) -> Seq<u8> {
    Seq::new(size, |i: int| (i % 251) as u8)
}

/// Bytes that show a shift: they count up to 250 and start over.
pub fn test_pattern(size: usize) -> (r: Vec<u8>)
    ensures
        r@ == pattern(size as nat),
{
    let mut out: Vec<u8> = Vec::new();
    let mut i: usize = 0;
    while i < size
        invariant
            i <= size,
            out@ == pattern(i as nat),
        decreases size - i,
    {
        out.push((i % 251) as u8);
        proof {
            assert(out@ =~= pattern(i as nat + 1));
        }
        i = i + 1;
    }
    out
}

/// Whether received bytes are those of the test pattern.
pub fn shows_pattern(head: &[u8]) -> (r: bool)
    ensures
        r == (head@ == pattern(head@.len())),
{
    let mut i: usize = 0;
    while i < head.len()
        invariant
            i <= head@.len(),
            forall|k: int| 0 <= k < i ==> head@[k] == pattern(head@.len())[k],
        decreases head.len() - i,
    {
        if head[i] != (i % 251) as u8 {
            proof {
                assert(pattern(head@.len())[i as int] == (i % 251) as u8);
            }
            return false;
        }
        i = i + 1;
    }
    proof {
        assert(head@ =~= pattern(head@.len()));
    }
    true
}

/// How a receive buffer is marked before a read: all of it cleared, or a short mark at its start.
pub struct FillPlan {
    pub value: u8,
    pub len: usize,
}

/// How a receive buffer is marked before a read.
pub fn fill_plan(clear_buffer: bool, buf_size: usize) -> (r: FillPlan)
    ensures
        clear_buffer ==> r.value == 0 && r.len == buf_size,
        !clear_buffer ==> r.value == 0xff && r.len == (if buf_size < 64 {
            buf_size
        } else {
            64
        }),
{
    if clear_buffer {
        FillPlan { value: 0, len: buf_size }
    } else if buf_size < 64 {
        FillPlan { value: 0xff, len: buf_size }
    } else {
        FillPlan { value: 0xff, len: 64 }
    }
}

/// Shortest, middle and longest of a number of times.
#[derive(Clone, Copy, PartialEq, Eq, Structural, Debug)]
pub struct Summary {
    pub min: u64,
    pub median: u64,
    pub max: u64,
}

pub open spec fn ascending(s: Seq<u64>) -> bool {
    forall|i: int, j: int| 0 <= i <= j < s.len() ==> s[i] <= s[j]
}

/// The same times in ascending order.
pub open spec fn sorts(times: Seq<u64>, sorted: Seq<u64>) -> bool {
    ascending(sorted) && sorted.to_multiset() == times.to_multiset()
}

/// The summary of the times, given in ascending order.
pub open spec fn summary_of(sorted: Seq<u64>) -> Summary {
    Summary {
        min: sorted[0],
        median: sorted[sorted.len() as int / 2],
        max: sorted[sorted.len() - 1],
    }
}

fn place_time(out: &mut Vec<u64>, x: u64)
    requires
        ascending(old(out)@),
    ensures
        ascending(final(out)@),
        final(out)@.to_multiset() == old(out)@.to_multiset().insert(x),
{
    broadcast use vstd::seq_lib::group_to_multiset_ensures;

    let ghost s = out@;
    let mut i: usize = out.len();
    while i > 0 && out[i - 1] > x
        invariant
            i <= out.len(),
            out@ == s,
            forall|k: int| i <= k < s.len() ==> s[k] > x,
        decreases i,
    {
        i = i - 1;
    }
    out.insert(i, x);
    proof {
        assert(out@ == s.insert(i as int, x));
    }
}

fn sort_times(times: &Vec<u64>) -> (r: Vec<u64>)
    ensures
        sorts(times@, r@),
        r.len() == times.len(),
{
    let mut out: Vec<u64> = Vec::new();
    let mut i: usize = 0;
    proof {
        assert(times@.take(0) =~= out@);
    }
    while i < times.len()
        invariant
            i <= times.len(),
            ascending(out@),
            out@.to_multiset() == times@.take(i as int).to_multiset(),
        decreases times.len() - i,
    {
        place_time(&mut out, times[i]);
        proof {
            broadcast use vstd::seq_lib::group_to_multiset_ensures;

            assert(times@.take(i + 1) =~= times@.take(i as int).push(times@[i as int]));
        }
        i = i + 1;
    }
    proof {
        broadcast use vstd::seq_lib::group_to_multiset_ensures;

        assert(times@.take(i as int) =~= times@);
        assert(out@.to_multiset().len() == times@.to_multiset().len());
    }
    out
}

/// Summarises the times of all rounds; there is nothing to say of none.
pub fn summarize(times: &Vec<u64>) -> (r: Option<Summary>)
    ensures
        match r {
            None => times@.len() == 0,
            Some(s) => exists|sorted: Seq<u64>| #[trigger]
                sorts(times@, sorted) && sorted.len() == times@.len() > 0 && s == summary_of(sorted),
        },
{
    if times.len() == 0 {
        return None;
    }
    let sorted = sort_times(times);
    let n: usize = sorted.len();
    let r = Summary { min: sorted[0], median: sorted[n / 2], max: sorted[n - 1] };
    proof {
        assert(r == summary_of(sorted@));
    }
    Some(r)
}

/// What a server says that a read brought.
#[derive(Clone, Copy, PartialEq, Eq, Structural, Debug)]
pub struct GetAnswer {
    pub bytes_written: u64,
    pub num_chunks: u32,
    /// How many bytes at the start of the buffer are held against the test pattern.
    pub head_len: usize,
}

/// Reads of one object from one server, one after the other.
pub struct GetBench {
    pub object_key: String,
    pub addr: u64,
    pub rkey: u32,
    pub buf_size: u64,
    pub iters: usize,
    pub times: Vec<u64>,
    pub last_bytes: u64,
}

impl GetBench {
    pub fn new(object_key: String, addr: u64, rkey: u32, buf_size: u64, iters: usize) -> (r: GetBench)
        ensures
            r.object_key == object_key,
            r.addr == addr,
            r.rkey == rkey,
            r.buf_size == buf_size,
            r.iters == iters,
            r.times@.len() == 0,
            r.last_bytes == 0,
    {
        GetBench { object_key, addr, rkey, buf_size, iters, times: Vec::new(), last_bytes: 0 }
    }

    /// The next request, as long as rounds are left.
    pub fn request(&self) -> (r: Option<Vec<u8>>)
        ensures
            match r {
                None => self.times@.len() >= self.iters,
                Some(b) => self.times@.len() < self.iters && b@ == seq![MSG_GET_REQ] + le(
                    byte_len(self.object_key@),
                    2,
                ) + encode_utf8(self.object_key@) + le(self.addr as nat, 8) + le(
                    self.rkey as nat,
                    4,
                ) + le(self.buf_size as nat, 8),
            },
    {
        if self.times.len() >= self.iters {
            return None;
        }
        Some(
            wire::build_unchecked_get_request(
                self.object_key.as_str(),
                self.addr,
                self.rkey,
                self.buf_size,
            ),
        )
    }

    /// Takes in the answer to a request: its tag, its body, and the time that it took. A wrong
    /// tag or a missing object ends the benchmark.
    pub fn answered(&mut self, tag: u8, body: &[u8], nanos: u64) -> (r: Result<GetAnswer, String>)
        requires
            body@.len() == 13,
        ensures
            if tag != MSG_GET_RESP {
                &&& r is Err
                &&& r->Err_0@ == "expected GET_RESP, got "@ + decimal(tag as nat)
                &&& *final(self) == *old(self)
            } else if body@[0] == 0 {
                &&& r is Err
                &&& r->Err_0@ == "key '"@ + old(self).object_key@
                    + "' not found in server cache. Run cs-bench first to PUT"@
                &&& *final(self) == *old(self)
            } else {
                let bytes = le_value(body@.subrange(1, 9));
                &&& r is Ok
                &&& r->Ok_0.bytes_written == bytes
                &&& r->Ok_0.num_chunks == le_value(body@.subrange(9, 13))
                &&& r->Ok_0.head_len == (if bytes < 16 {
                    bytes as int
                } else {
                    16
                })
                &&& final(self).times@ == old(self).times@.push(nanos)
                &&& final(self).last_bytes == bytes
                &&& final(self).object_key == old(self).object_key
                &&& final(self).addr == old(self).addr
                &&& final(self).rkey == old(self).rkey
                &&& final(self).buf_size == old(self).buf_size
                &&& final(self).iters == old(self).iters
            },
    {
        match regions::check_awaited(tag, Awaited::GetResponse) {
            Ok(_) => {},
            Err(e) => {
                return Err(e);
            },
        }
        let answer = wire::parse_get_result(body);
        if !answer.found {
            let mut out = "key '".to_owned();
            out.append(self.object_key.as_str());
            out.append("' not found in server cache. Run cs-bench first to PUT");
            return Err(out);
        }
        let bytes: u64 = answer.bytes_written;
        self.times.push(nanos);
        self.last_bytes = bytes;
        let head_len: usize = if bytes < 16 {
            bytes as usize
        } else {
            16
        };
        Ok(GetAnswer { bytes_written: bytes, num_chunks: answer.num_chunks, head_len })
    }

    /// The summary of all rounds and the size of the last answer.
    pub fn finish(&self) -> (r: Option<(Summary, u64)>)
        ensures
            match r {
                None => self.times@.len() == 0,
                Some((s, bytes)) => bytes == self.last_bytes && exists|sorted: Seq<u64>| #[trigger]
                    sorts(self.times@, sorted) && sorted.len() == self.times@.len() > 0 && s
                        == summary_of(sorted),
            },
    {
        match summarize(&self.times) {
            None => None,
            Some(s) => Some((s, self.last_bytes)),
        }
    }
}

/// The stripes that one server delivers.
pub struct EndpointStripes {
    pub endpoint: String,
    pub stripes: Vec<u32>,
}

/// Some chunk of the placement puts the stripe on the endpoint.
pub open spec fn delivers(
    chunks: Seq<pb::PlacementChunk>,
    endpoint: Seq<char>,
    stripe: u32,
) -> bool {
    exists|k: int|
        0 <= k < chunks.len() && (#[trigger] chunks[k]).rdma_endpoint@ == endpoint
            && chunks[k].stripe_index == stripe
}

/// The placement names the endpoint.
pub open spec fn named(chunks: Seq<pb::PlacementChunk>, endpoint: Seq<char>) -> bool {
    exists|k: int| 0 <= k < chunks.len() && (#[trigger] chunks[k]).rdma_endpoint@ == endpoint
}

/// The stripes of a placement by endpoint: the endpoints in order and each once, the stripes of
/// each ascending and each once.
pub open spec fn groups(chunks: Seq<pb::PlacementChunk>, r: Seq<EndpointStripes>) -> bool {
    &&& forall|i: int, j: int| #![trigger r[i], r[j]]
        0 <= i < j < r.len() ==> comes_before(r[i].endpoint@, r[j].endpoint@)
    &&& forall|i: int| 0 <= i < r.len() ==> named(chunks, (#[trigger] r[i]).endpoint@)
    &&& forall|k: int|
        0 <= k < chunks.len() ==> exists|i: int|
            0 <= i < r.len() && (#[trigger] r[i]).endpoint@ == (
            #[trigger] chunks[k]).rdma_endpoint@
    &&& forall|i: int| 0 <= i < r.len() ==> strictly_ascending((#[trigger] r[i]).stripes@)
    &&& forall|i: int, s: u32| #![trigger r[i], delivers(chunks, r[i].endpoint@, s)]
        0 <= i < r.len() ==> (r[i].stripes@.contains(s) <==> delivers(chunks, r[i].endpoint@, s))
}

pub open spec fn strictly_ascending(s: Seq<u32>) -> bool {
    forall|i: int, j: int| 0 <= i < j < s.len() ==> s[i] < s[j]
}

pub open spec fn texts_ascending(s: Seq<String>) -> bool {
    forall|i: int, j: int| #![trigger s[i], s[j]]
        0 <= i < j < s.len() ==> comes_before(s[i]@, s[j]@)
}

/// The text is one of the list.
pub open spec fn holds_text(s: Seq<String>, t: Seq<char>) -> bool {
    exists|i: int| 0 <= i < s.len() && (#[trigger] s[i])@ == t
}

fn insert_text(out: &mut Vec<String>, t: &String)
    requires
        texts_ascending(old(out)@),
    ensures
        texts_ascending(final(out)@),
        forall|x: Seq<char>| #[trigger]
            holds_text(final(out)@, x) <==> holds_text(old(out)@, x) || x == t@,
{
    let ghost before = out@;
    let mut i: usize = 0;
    while i < out.len() && text::is_before(out[i].as_str(), t.as_str())
        invariant
            i <= out.len(),
            out@ == before,
            forall|k: int| 0 <= k < i ==> comes_before((#[trigger] before[k])@, t@),
        decreases out.len() - i,
    {
        i = i + 1;
    }
    if i < out.len() && text::same(out[i].as_str(), t.as_str()) {
        proof {
            assert(holds_text(out@, t@));
        }
        return;
    }
    let copy = t.clone();
    out.insert(i, copy);
    proof {
        let after = out@;
        assert forall|k: int| i <= k < before.len() implies comes_before(
            t@,
            (#[trigger] before[k])@,
        ) by {
            text::lemma_text_order_total(before[i as int]@, t@);
            if i < k {
                assert(comes_before(before[i as int]@, before[k]@));
                text::lemma_text_order_transitive(t@, before[i as int]@, before[k]@);
            }
        }
        assert forall|a: int, b: int| #![trigger after[a], after[b]] 0 <= a < b
            < after.len() implies comes_before(after[a]@, after[b]@) by {
            let p = if a < i {
                a
            } else {
                a - 1
            };
            let q = if b < i {
                b
            } else {
                b - 1
            };
            if a == i {
                assert(comes_before(t@, before[q]@));
            } else if b == i {
                assert(comes_before(before[p]@, t@));
            } else {
                assert(comes_before(before[p]@, before[q]@));
            }
        }
        assert forall|x: Seq<char>| #[trigger] holds_text(after, x) <==> holds_text(before, x) || x
            == t@ by {
            if holds_text(before, x) {
                let k = choose|k: int| 0 <= k < before.len() && (#[trigger] before[k])@ == x;
                assert(after[if k < i {
                    k
                } else {
                    k + 1
                }] == before[k]);
            }
            if x == t@ {
                assert(after[i as int]@ == x);
            }
            if holds_text(after, x) && x != t@ {
                let k = choose|k: int| 0 <= k < after.len() && (#[trigger] after[k])@ == x;
                assert(before[if k < i {
                    k
                } else {
                    k - 1
                }] == after[k]);
            }
        }
    }
}

fn insert_stripe(out: &mut Vec<u32>, s: u32)
    requires
        strictly_ascending(old(out)@),
    ensures
        strictly_ascending(final(out)@),
        forall|x: u32| #[trigger]
            final(out)@.contains(x) <==> old(out)@.contains(x) || x == s,
{
    let ghost before = out@;
    let mut i: usize = 0;
    while i < out.len() && out[i] < s
        invariant
            i <= out.len(),
            out@ == before,
            forall|k: int| 0 <= k < i ==> before[k] < s,
        decreases out.len() - i,
    {
        i = i + 1;
    }
    if i < out.len() && out[i] == s {
        return;
    }
    out.insert(i, s);
    proof {
        let after = out@;
        assert forall|x: u32| #[trigger] after.contains(x) <==> before.contains(x) || x == s by {
            if before.contains(x) {
                let k = choose|k: int| 0 <= k < before.len() && before[k] == x;
                assert(after[if k < i {
                    k
                } else {
                    k + 1
                }] == x);
            }
            if x == s {
                assert(after[i as int] == x);
            }
            if after.contains(x) && x != s {
                let k = choose|k: int| 0 <= k < after.len() && after[k] == x;
                assert(before[if k < i {
                    k
                } else {
                    k - 1
                }] == x);
            }
        }
    }
}

/// Why a placement cannot be read from its servers: the complaint about the first stripe that
/// has no endpoint.
pub open spec fn placement_gap(chunks: Seq<pb::PlacementChunk>) -> Option<Seq<char>>
    decreases chunks.len(),
{
    if chunks.len() == 0 {
        None
    } else {
        match placement_gap(chunks.drop_last()) {
            Some(e) => Some(e),
            None => if chunks.last().rdma_endpoint@.len() == 0 {
                Some(
                    "stripe "@ + decimal(chunks.last().stripe_index as nat)
                        + " has no RDMA endpoint in placement"@,
                )
            } else {
                None
            },
        }
    }
}

fn collect_stripes(chunks: &Vec<pb::PlacementChunk>, endpoint: &str) -> (r: Vec<u32>)
    ensures
        strictly_ascending(r@),
        forall|s: u32| r@.contains(s) <==> #[trigger] delivers(chunks@, endpoint@, s),
{
    let mut out: Vec<u32> = Vec::new();
    let mut i: usize = 0;
    proof {
        assert forall|s: u32| out@.contains(s) <==> #[trigger] delivers(
            chunks@.take(0),
            endpoint@,
            s,
        ) by {}
    }
    while i < chunks.len()
        invariant
            i <= chunks.len(),
            strictly_ascending(out@),
            forall|s: u32|
                out@.contains(s) <==> #[trigger] delivers(chunks@.take(i as int), endpoint@, s),
        decreases chunks.len() - i,
    {
        let ghost before = out@;
        let ghost front = chunks@.take(i as int);
        if text::same(chunks[i].rdma_endpoint.as_str(), endpoint) {
            insert_stripe(&mut out, chunks[i].stripe_index);
        }
        proof {
            let more = chunks@.take(i + 1);
            let c = chunks@[i as int];
            assert forall|s: u32| out@.contains(s) <==> #[trigger] delivers(more, endpoint@, s) by {
                if delivers(front, endpoint@, s) {
                    let k = choose|k: int|
                        0 <= k < front.len() && (#[trigger] front[k]).rdma_endpoint@ == endpoint@
                            && front[k].stripe_index == s;
                    assert(more[k] == front[k]);
                }
                if c.rdma_endpoint@ == endpoint@ && c.stripe_index == s {
                    assert(more[i as int] == c);
                }
                if delivers(more, endpoint@, s) {
                    let k = choose|k: int|
                        0 <= k < more.len() && (#[trigger] more[k]).rdma_endpoint@ == endpoint@
                            && more[k].stripe_index == s;
                    if k < i {
                        assert(front[k] == more[k]);
                    }
                }
            }
        }
        i = i + 1;
    }
    proof {
        assert(chunks@.take(i as int) =~= chunks@);
    }
    out
}

/// What the coordinator knows of an object: its version, and where that is.
#[derive(Debug, PartialEq, Eq)]
pub struct ObjectLookup {
    pub descriptor: pb::ObjectDescriptor,
    pub placement: Option<pb::PlacementDescriptor>,
}

/// The version and the placement of an object that was looked up. An object that was not found
/// has neither, and one that was found may lack the placement.
pub fn found_placement(
    lookup: Option<ObjectLookup>,
    namespace: &str,
    object_key: &str,
) -> (r: Result<(pb::ObjectDescriptor, pb::PlacementDescriptor), String>)
    ensures
        match lookup {
            None => r is Err && r->Err_0@ == "object not found: "@ + namespace@ + "/"@
                + object_key@,
            Some(found) => match found.placement {
                None => r is Err && r->Err_0@ == "object lookup returned no placement"@,
                Some(placement) => r == Ok::<
                    (pb::ObjectDescriptor, pb::PlacementDescriptor),
                    String,
                >((found.descriptor, placement)),
            },
        },
{
    match lookup {
        None => {
            let mut out = "object not found: ".to_owned();
            out.append(namespace);
            out.append("/");
            out.append(object_key);
            Err(out)
        },
        Some(found) => match found.placement {
            None => Err("object lookup returned no placement".to_owned()),
            Some(placement) => Ok((found.descriptor, placement)),
        },
    }
}

/// The stripes that each server is asked for.
pub fn endpoint_stripes(chunks: &Vec<pb::PlacementChunk>) -> (r: Result<
    Vec<EndpointStripes>,
    String,
>)
    ensures
        if chunks@.len() == 0 {
            r is Err && r->Err_0@ == "object placement contains no chunks"@
        } else {
            match placement_gap(chunks@) {
                Some(e) => r is Err && r->Err_0@ == e,
                None => r is Ok && groups(chunks@, r->Ok_0@),
            }
        },
{
    if chunks.len() == 0 {
        return Err("object placement contains no chunks".to_owned());
    }
    let mut names: Vec<String> = Vec::new();
    let mut i: usize = 0;
    while i < chunks.len()
        invariant
            i <= chunks.len(),
            placement_gap(chunks@.take(i as int)) is None,
            texts_ascending(names@),
            forall|x: Seq<char>| #[trigger]
                holds_text(names@, x) <==> named(chunks@.take(i as int), x),
        decreases chunks.len() - i,
    {
        let ghost front = chunks@.take(i as int);
        let ghost more = chunks@.take(i + 1);
        proof {
            assert(more.drop_last() =~= front);
        }
        if chunks[i].rdma_endpoint.as_str().unicode_len() == 0 {
            proof {
                lemma_gap_prefix(chunks@, i + 1);
            }
            let mut out = "stripe ".to_owned();
            text::push_decimal(&mut out, chunks[i].stripe_index as u64);
            out.append(" has no RDMA endpoint in placement");
            return Err(out);
        }
        insert_text(&mut names, &chunks[i].rdma_endpoint);
        proof {
            let c = chunks@[i as int];
            assert forall|x: Seq<char>| #[trigger] holds_text(names@, x) <==> named(more, x) by {
                if named(front, x) {
                    let k = choose|k: int|
                        0 <= k < front.len() && (#[trigger] front[k]).rdma_endpoint@ == x;
                    assert(more[k] == front[k]);
                }
                if x == c.rdma_endpoint@ {
                    assert(more[i as int] == c);
                }
                if named(more, x) {
                    let k = choose|k: int|
                        0 <= k < more.len() && (#[trigger] more[k]).rdma_endpoint@ == x;
                    if k < i {
                        assert(front[k] == more[k]);
                    }
                }
            }
        }
        i = i + 1;
    }
    proof {
        assert(chunks@.take(i as int) =~= chunks@);
    }
    let mut out: Vec<EndpointStripes> = Vec::new();
    let mut j: usize = 0;
    while j < names.len()
        invariant
            j <= names.len(),
            out.len() == j,
            forall|k: int| 0 <= k < j ==> (#[trigger] out@[k]).endpoint@ == names@[k]@,
            forall|k: int| 0 <= k < j ==> strictly_ascending((#[trigger] out@[k]).stripes@),
            forall|k: int, s: u32| #![trigger out@[k], delivers(chunks@, out@[k].endpoint@, s)]
                0 <= k < j ==> (out@[k].stripes@.contains(s) <==> delivers(
                    chunks@,
                    out@[k].endpoint@,
                    s,
                )),
        decreases names.len() - j,
    {
        let stripes = collect_stripes(chunks, names[j].as_str());
        out.push(EndpointStripes { endpoint: names[j].clone(), stripes });
        j = j + 1;
    }
    proof {
        let r = out@;
        assert forall|a: int, b: int| #![trigger r[a], r[b]] 0 <= a < b < r.len() implies comes_before(
            r[a].endpoint@,
            r[b].endpoint@,
        ) by {
            assert(comes_before(names@[a]@, names@[b]@));
        }
        assert forall|a: int| 0 <= a < r.len() implies named(
            chunks@,
            (#[trigger] r[a]).endpoint@,
        ) by {
            assert(holds_text(names@, names@[a]@));
        }
        assert forall|k: int| 0 <= k < chunks@.len() implies exists|a: int|
            0 <= a < r.len() && (#[trigger] r[a]).endpoint@ == (
            #[trigger] chunks@[k]).rdma_endpoint@ by {
            let x = chunks@[k].rdma_endpoint@;
            assert(named(chunks@, x));
            assert(holds_text(names@, x));
            let a = choose|a: int| 0 <= a < names@.len() && (#[trigger] names@[a])@ == x;
            assert(r[a].endpoint@ == x);
        }
    }
    Ok(out)
}

proof fn lemma_gap_prefix(chunks: Seq<pb::PlacementChunk>, n: int)
    requires
        0 <= n <= chunks.len(),
        placement_gap(chunks.take(n)) is Some,
    ensures
        placement_gap(chunks) == placement_gap(chunks.take(n)),
    decreases chunks.len() - n,
{
    if n == chunks.len() {
        assert(chunks.take(n) =~= chunks);
    } else {
        assert(chunks.take(n + 1).drop_last() =~= chunks.take(n));
        lemma_gap_prefix(chunks, n + 1);
    }
}

/// Where every stripe is named once, no two servers are asked for the same stripe.
pub proof fn no_stripe_is_read_twice(
    chunks: Seq<pb::PlacementChunk>,
    r: Seq<EndpointStripes>,
    i: int,
    j: int,
    stripe: u32,
)
    requires
        groups(chunks, r),
        forall|a: int, b: int| #![trigger chunks[a], chunks[b]]
            0 <= a < b < chunks.len() ==> chunks[a].stripe_index != chunks[b].stripe_index,
        0 <= i < j < r.len(),
        r[i].stripes@.contains(stripe),
    ensures
        !r[j].stripes@.contains(stripe),
{
    assert(delivers(chunks, r[i].endpoint@, stripe));
    if r[j].stripes@.contains(stripe) {
        assert(delivers(chunks, r[j].endpoint@, stripe));
        let a = choose|k: int|
            0 <= k < chunks.len() && (#[trigger] chunks[k]).rdma_endpoint@ == r[i].endpoint@
                && chunks[k].stripe_index == stripe;
        let b = choose|k: int|
            0 <= k < chunks.len() && (#[trigger] chunks[k]).rdma_endpoint@ == r[j].endpoint@
                && chunks[k].stripe_index == stripe;
        text::lemma_text_order_total(r[i].endpoint@, r[j].endpoint@);
        assert(comes_before(r[i].endpoint@, r[j].endpoint@));
        if a < b {
            assert(chunks[a].stripe_index != chunks[b].stripe_index);
        } else if b < a {
            assert(chunks[b].stripe_index != chunks[a].stripe_index);
        }
    }
}

/// Every stripe of the placement is asked for, from the server that has it.
pub proof fn every_stripe_is_read(chunks: Seq<pb::PlacementChunk>, r: Seq<EndpointStripes>, k: int)
    requires
        groups(chunks, r),
        0 <= k < chunks.len(),
    ensures
        exists|i: int|
            0 <= i < r.len() && (#[trigger] r[i]).endpoint@ == chunks[k].rdma_endpoint@
                && r[i].stripes@.contains(chunks[k].stripe_index),
{
    let i = choose|i: int|
        0 <= i < r.len() && (#[trigger] r[i]).endpoint@ == chunks[k].rdma_endpoint@;
    assert(delivers(chunks, r[i].endpoint@, chunks[k].stripe_index));
}

/// Checks that the receive buffer holds the object, and says how large the object is.
pub fn check_receive_buffer(buf_size: usize, object_size: u64) -> (r: Result<usize, String>)
    ensures
        if object_size > usize::MAX {
            r is Err && r->Err_0@ == "object size does not fit usize"@
        } else if buf_size < object_size {
            r is Err && r->Err_0@ == "client buffer too small: "@ + decimal(buf_size as nat)
                + " bytes for "@ + decimal(object_size as nat) + " byte object"@
        } else {
            r == Ok::<usize, String>(object_size as usize)
        },
{
    if object_size > usize::MAX as u64 {
        return Err("object size does not fit usize".to_owned());
    }
    let size: usize = object_size as usize;
    if buf_size < size {
        let mut out = "client buffer too small: ".to_owned();
        text::push_decimal(&mut out, buf_size as u64);
        out.append(" bytes for ");
        text::push_decimal(&mut out, size as u64);
        out.append(" byte object");
        return Err(out);
    }
    Ok(size)
}

/// One part of a receive buffer that a server writes to.
#[derive(Clone, Copy, PartialEq, Eq, Structural, Debug)]
pub struct Segment {
    pub addr: u64,
    pub rkey: u32,
    pub len: u64,
}

/// The length of a segment: an equal share of the buffer, and at least one byte.
pub open spec fn segment_len(total: nat, segments: nat) -> nat {
    if total / segments > 1 {
        total / segments
    } else {
        1
    }
}

/// Segment `i` of a buffer.
pub open spec fn segment_at(base: u64, rkey: u32, total: nat, len: nat, i: int) -> Segment {
    Segment {
        addr: (base + i * len) as u64,
        rkey,
        len: (stripe_end(total, len, i) - i * len) as u64,
    }
}

/// Cuts a receive buffer into segments of equal length; what is left over is one more.
pub fn cut_segments(base: u64, rkey: u32, total: usize, segments: usize) -> (r: Vec<Segment>)
    requires
        segments > 0,
        base + total <= u64::MAX,
    ensures
        ({
            let len = segment_len(total as nat, segments as nat);
            &&& r@.len() == stripe_count(total as nat, len)
            &&& forall|i: int|
                0 <= i < r@.len() ==> #[trigger] r@[i] == segment_at(
                    base,
                    rkey,
                    total as nat,
                    len,
                    i,
                )
        }),
{
    let share: usize = total / segments;
    let len: u64 = if share > 1 {
        share as u64
    } else {
        1
    };
    let n: u64 = stripes::count_stripes(total as u64, len);
    let mut out: Vec<Segment> = Vec::new();
    let mut off: u64 = 0;
    let mut i: u64 = 0;
    while i < n
        invariant
            i <= n,
            len > 0,
            n == stripe_count(total as nat, len as nat),
            base + total <= u64::MAX,
            out.len() == i,
            i < n ==> off == i * len,
            forall|k: int|
                0 <= k < i ==> #[trigger] out@[k] == segment_at(
                    base,
                    rkey,
                    total as nat,
                    len as nat,
                    k,
                ),
        decreases n - i,
    {
        proof {
            stripes::lemma_stripe_bounds(total as nat, len as nat, i as int);
            assert((i + 1) * len == i * len + len) by (nonlinear_arith);
        }
        let left: u64 = total as u64 - off;
        let m: u64 = if len < left {
            len
        } else {
            left
        };
        out.push(Segment { addr: base + off, rkey, len: m });
        off = off + m;
        i = i + 1;
    }
    out
}

/// Each segment of a buffer starts where the one before it ends, the first at the start and the
/// last up to the end of the buffer.
pub proof fn segments_cover_the_buffer(base: u64, rkey: u32, total: nat, len: nat, i: int)
    requires
        len > 0,
        base + total <= u64::MAX,
        0 <= i < stripe_count(total, len),
    ensures
        segment_at(base, rkey, total, len, 0).addr == base,
        ({
            let s = segment_at(base, rkey, total, len, i);
            if i + 1 < stripe_count(total, len) {
                s.addr + s.len == segment_at(base, rkey, total, len, i + 1).addr
            } else {
                s.addr + s.len == base + total
            }
        }),
{
    stripes::lemma_stripe_bounds(total, len, i);
    assert(0 * len == 0) by (nonlinear_arith);
    if i + 1 < stripe_count(total, len) {
        stripes::lemma_stripe_bounds(total, len, i + 1);
    }
}

/// What a reader of one server reports.
pub enum WorkerEvent {
    Ready { endpoint: String, setup: Result<(), String> },
    ReadDone { endpoint: String, bytes: Result<usize, String> },
}

/// What is wrong after all readers have reported that they are set up; the last complaint
/// counts.
pub open spec fn setup_fault(events: Seq<WorkerEvent>) -> Option<Seq<char>>
    decreases events.len(),
{
    if events.len() == 0 {
        None
    } else {
        match events.last() {
            WorkerEvent::Ready { endpoint, setup: Ok(_) } => setup_fault(events.drop_last()),
            WorkerEvent::Ready { endpoint, setup: Err(e) } => Some(
                "RDMA endpoint "@ + endpoint@ + " setup failed: "@ + e@,
            ),
            WorkerEvent::ReadDone { .. } => Some("worker returned data before setup completed"@),
        }
    }
}

/// Judges the reports of all readers on their setup.
pub fn check_setup(events: &Vec<WorkerEvent>) -> (r: Result<(), String>)
    ensures
        match setup_fault(events@) {
            None => r is Ok,
            Some(e) => r is Err && r->Err_0@ == e,
        },
{
    let mut i: usize = events.len();
    proof {
        assert(events@.take(i as int) =~= events@);
    }
    while i > 0
        invariant
            i <= events.len(),
            setup_fault(events@) == setup_fault(events@.take(i as int)),
        decreases i,
    {
        proof {
            assert(events@.take(i as int).drop_last() =~= events@.take(i - 1));
            assert(events@.take(i as int).last() == events@[i - 1]);
        }
        match &events[i - 1] {
            WorkerEvent::Ready { endpoint, setup } => match setup {
                Ok(_) => {},
                Err(e) => {
                    let mut out = "RDMA endpoint ".to_owned();
                    out.append(endpoint.as_str());
                    out.append(" setup failed: ");
                    out.append(e.as_str());
                    return Err(out);
                },
            },
            WorkerEvent::ReadDone { .. } => {
                return Err("worker returned data before setup completed".to_owned());
            },
        }
        i = i - 1;
    }
    Ok(())
}

/// The bytes that all readers report.
pub open spec fn read_total(events: Seq<WorkerEvent>) -> nat
    decreases events.len(),
{
    if events.len() == 0 {
        0
    } else {
        read_total(events.drop_last()) + match events.last() {
            WorkerEvent::ReadDone { endpoint, bytes: Ok(n) } => n as nat,
            _ => 0,
        }
    }
}

/// What is wrong with the reports on one round; the first complaint counts.
pub open spec fn round_fault(events: Seq<WorkerEvent>) -> Option<Seq<char>>
    decreases events.len(),
{
    if events.len() == 0 {
        None
    } else {
        match round_fault(events.drop_last()) {
            Some(e) => Some(e),
            None => match events.last() {
                WorkerEvent::ReadDone { endpoint, bytes: Ok(_) } => None,
                WorkerEvent::ReadDone { endpoint, bytes: Err(e) } => Some(
                    "RDMA endpoint "@ + endpoint@ + " read failed: "@ + e@,
                ),
                WorkerEvent::Ready { endpoint, .. } => Some(
                    "duplicate ready event from "@ + endpoint@,
                ),
            },
        }
    }
}

proof fn lemma_round_prefix(events: Seq<WorkerEvent>, n: int)
    requires
        0 <= n <= events.len(),
    ensures
        read_total(events.take(n)) <= read_total(events),
        round_fault(events.take(n)) is Some ==> round_fault(events) == round_fault(events.take(n)),
    decreases events.len() - n,
{
    if n == events.len() {
        assert(events.take(n) =~= events);
    } else {
        assert(events.take(n + 1).drop_last() =~= events.take(n));
        lemma_round_prefix(events, n + 1);
    }
}

/// Judges the reports of all readers on one round: together they must have read the object.
pub fn check_round(events: &Vec<WorkerEvent>, object_size: usize) -> (r: Result<(), String>)
    requires
        round_fault(events@) is None ==> read_total(events@) <= usize::MAX,
    ensures
        match round_fault(events@) {
            Some(e) => r is Err && r->Err_0@ == e,
            None => if read_total(events@) == object_size {
                r is Ok
            } else {
                r is Err && r->Err_0@ == "partial multi-endpoint read: "@ + decimal(
                    read_total(events@),
                ) + " of "@ + decimal(object_size as nat) + " bytes"@
            },
        },
{
    let mut i: usize = 0;
    while i < events.len()
        invariant
            i <= events.len(),
            round_fault(events@.take(i as int)) is None,
        decreases events.len() - i,
    {
        proof {
            assert(events@.take(i + 1).drop_last() =~= events@.take(i as int));
            assert(events@.take(i + 1).last() == events@[i as int]);
            lemma_round_prefix(events@, i + 1);
        }
        match &events[i] {
            WorkerEvent::ReadDone { endpoint, bytes } => match bytes {
                Ok(_) => {},
                Err(e) => {
                    let mut out = "RDMA endpoint ".to_owned();
                    out.append(endpoint.as_str());
                    out.append(" read failed: ");
                    out.append(e.as_str());
                    return Err(out);
                },
            },
            WorkerEvent::Ready { endpoint, .. } => {
                let mut out = "duplicate ready event from ".to_owned();
                out.append(endpoint.as_str());
                return Err(out);
            },
        }
        i = i + 1;
    }
    proof {
        assert(events@.take(i as int) =~= events@);
    }
    let mut total: usize = 0;
    let mut j: usize = 0;
    while j < events.len()
        invariant
            j <= events.len(),
            read_total(events@) <= usize::MAX,
            total == read_total(events@.take(j as int)),
        decreases events.len() - j,
    {
        proof {
            assert(events@.take(j + 1).drop_last() =~= events@.take(j as int));
            assert(events@.take(j + 1).last() == events@[j as int]);
            lemma_round_prefix(events@, j + 1);
        }
        match &events[j] {
            WorkerEvent::ReadDone { bytes, .. } => match bytes {
                Ok(n) => {
                    total = total + *n;
                },
                Err(_) => {},
            },
            WorkerEvent::Ready { .. } => {},
        }
        j = j + 1;
    }
    proof {
        assert(events@.take(j as int) =~= events@);
    }
    if total != object_size {
        let mut out = "partial multi-endpoint read: ".to_owned();
        text::push_decimal(&mut out, total as u64);
        out.append(" of ");
        text::push_decimal(&mut out, object_size as u64);
        out.append(" bytes");
        return Err(out);
    }
    Ok(())
}

/// Judges the first bytes of what was received.
pub fn check_head(head: &[u8]) -> (r: Result<(), String>)
    ensures
        head@ == pattern(head@.len()) ==> r is Ok,
        head@ != pattern(head@.len()) ==> r is Err && r->Err_0@
            == "received data failed prefix validation"@,
{
    if shows_pattern(head) {
        Ok(())
    } else {
        Err("received data failed prefix validation".to_owned())
    }
}

/// The summary of a benchmark over several servers, which needs at least one round.
pub fn require_summary(times: &Vec<u64>) -> (r: Result<Summary, String>)
    ensures
        times@.len() == 0 ==> r is Err && r->Err_0@ == "--iters must be greater than zero"@,
        times@.len() > 0 ==> r is Ok && exists|sorted: Seq<u64>| #[trigger]
            sorts(times@, sorted) && sorted.len() == times@.len() && r->Ok_0 == summary_of(sorted),
{
    match summarize(times) {
        None => Err("--iters must be greater than zero".to_owned()),
        Some(s) => Ok(s),
    }
}

/// Times have one summary only.
pub proof fn summary_is_unique(times: Seq<u64>, a: Seq<u64>, b: Seq<u64>)
    requires
        sorts(times, a),
        sorts(times, b),
        a.len() == b.len(),
    ensures
        a == b,
    decreases a.len(),
{
    broadcast use vstd::seq_lib::group_to_multiset_ensures;

    if a.len() > 0 {
        let n = a.len() - 1;
        assert(a.to_multiset().contains(a[n]));
        assert(b.contains(a[n]));
        let k = choose|k: int| 0 <= k < b.len() && b[k] == a[n];
        assert(b[k] <= b[n]);
        assert(b.to_multiset().contains(b[n]));
        assert(a.contains(b[n]));
        let m = choose|m: int| 0 <= m < a.len() && a[m] == b[n];
        assert(a[m] <= a[n]);
        let rest = times.to_multiset().remove(a[n]);
        assert(a =~= a.drop_last().push(a[n]));
        assert(b =~= b.drop_last().push(b[n]));
        assert(a.drop_last().to_multiset() =~= rest);
        assert(b.drop_last().to_multiset() =~= rest);
        summary_is_unique(a.drop_last(), a.drop_last(), b.drop_last());
        assert(a =~= b);
    } else {
        assert(a =~= b);
    }
}

} // verus!
