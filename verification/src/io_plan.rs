//! How files are read and written in pieces, and how far a transfer has come.
use crate::aligned_buffer;
use crate::aligned_buffer::round_up;
use crate::error::KVError;
use crate::text;
use crate::text::{decimal, hex_digits, signed_decimal};
use vstd::prelude::*;
use vstd::string::*;

verus! {

/// Alignment that direct I/O needs of addresses, lengths and offsets.
pub const DIRECT_IO_ALIGN: usize = 4096;

/// The most bytes that are read or written by one submission: 4 MiB.
pub const MAX_AIO_CHUNK: usize = 4194304;

/// Submissions that a queue holds where the configuration names none.
pub const DEFAULT_QUEUE_DEPTH: u32 = 256;

/// One I/O request. A length of zero means the whole file.
#[derive(Debug, Clone, PartialEq, Eq)]
pub struct IORequest {
    pub path: String,
    pub offset: u64,
    pub length: usize,
}

/// The number of submissions that a queue is made for.
pub fn effective_queue_depth(configured: u32) -> (r: u32)
    ensures
        r == (if configured == 0 {
            DEFAULT_QUEUE_DEPTH
        } else {
            configured
        }),
        r > 0,
{
    if configured == 0 {
        DEFAULT_QUEUE_DEPTH
    } else {
        configured
    }
}

/// How many bytes a read of a file of `file_size` bytes asks for.
pub fn read_length(request_length: usize, file_size: usize) -> (r: usize)
    ensures
        r == (if request_length > 0 {
            request_length
        } else {
            file_size
        }),
{
    if request_length > 0 {
        request_length
    } else {
        file_size
    }
}

/// One piece of a file that is transferred by one submission.
#[derive(Debug, Clone, Copy, PartialEq, Eq, Structural)]
pub struct Piece {
    pub offset: u64,
    pub length: u32,
    /// The piece comes from a block of its own that is padded with zeros.
    pub is_tail: bool,
}

/// Piece `i` of a body of `total` bytes.
pub open spec fn body_piece(total: nat, i: int) -> Piece {
    let start = i * MAX_AIO_CHUNK;
    Piece {
        offset: start as u64,
        length: (if total - start < MAX_AIO_CHUNK {
            total - start
        } else {
            MAX_AIO_CHUNK as int
        }) as u32,
        is_tail: false,
    }
}

/// How many pieces a body of `total` bytes takes.
pub open spec fn body_count(total: nat) -> nat {
    (total + MAX_AIO_CHUNK - 1) as nat / MAX_AIO_CHUNK as nat
}

/// The pieces of a body of `total` bytes: full ones, and what is left.
pub open spec fn body_pieces(total: nat) -> Seq<Piece> {
    Seq::new(body_count(total), |i: int| body_piece(total, i))
}

proof fn lemma_body(total: nat, i: int)
    requires
        total <= usize::MAX,
        0 <= i < body_count(total),
    ensures
        0 <= i * MAX_AIO_CHUNK < total,
        1 <= body_piece(total, i).length <= MAX_AIO_CHUNK,
        body_piece(total, i).offset == i * MAX_AIO_CHUNK,
        i + 1 < body_count(total) ==> body_piece(total, i).length == MAX_AIO_CHUNK && (i + 1)
            * MAX_AIO_CHUNK < total,
        i + 1 == body_count(total) ==> i * MAX_AIO_CHUNK + body_piece(total, i).length == total,
{
    let c = MAX_AIO_CHUNK as int;
    vstd::arithmetic::div_mod::lemma_fundamental_div_mod(total + c - 1, c);
    vstd::arithmetic::div_mod::lemma_mod_bound(total + c - 1, c);
}

fn push_body(out: &mut Vec<Piece>, total: usize)
    ensures
        final(out)@ == old(out)@ + body_pieces(total as nat),
{
    let ghost before = out@;
    let mut off: usize = 0;
    let ghost mut i: int = 0;
    while off < total
        invariant
            0 <= i <= body_count(total as nat),
            i < body_count(total as nat) ==> off == i * MAX_AIO_CHUNK,
            i == body_count(total as nat) ==> off == total,
            off <= total,
            out@ == before + body_pieces(total as nat).take(i),
        decreases total - off,
    {
        proof {
            if i < body_count(total as nat) {
                lemma_body(total as nat, i);
            }
        }
        let left: usize = total - off;
        let length: usize = if left < MAX_AIO_CHUNK {
            left
        } else {
            MAX_AIO_CHUNK
        };
        out.push(Piece { offset: off as u64, length: length as u32, is_tail: false });
        off = off + length;
        proof {
            assert(body_pieces(total as nat)[i] == body_piece(total as nat, i));
            assert(out@ =~= before + body_pieces(total as nat).take(i + 1));
            i = i + 1;
        }
    }
    proof {
        if i < body_count(total as nat) {
            lemma_body(total as nat, i);
        }
        assert(body_pieces(total as nat).take(i) =~= body_pieces(total as nat));
    }
}

/// The part of `len` that whole blocks cover.
pub open spec fn whole_blocks(len: nat) -> nat {
    (len - len % DIRECT_IO_ALIGN as nat) as nat
}

/// The pieces by which `len` bytes are written: whole blocks, and one padded block for a rest.
pub open spec fn write_pieces(len: nat) -> Seq<Piece> {
    let body = whole_blocks(len);
    if body < len {
        body_pieces(body).push(
            Piece { offset: body as u64, length: DIRECT_IO_ALIGN as u32, is_tail: true },
        )
    } else {
        body_pieces(body)
    }
}

/// The pieces by which a file of `file_size` bytes is read: as many whole blocks as cover it.
pub open spec fn read_pieces(file_size: nat) -> Seq<Piece> {
    body_pieces(round_up(file_size, DIRECT_IO_ALIGN as nat))
}

/// Plans the writing of `len` bytes.
pub fn plan_write(len: usize) -> (r: Vec<Piece>)
    ensures
        r@ == write_pieces(len as nat),
{
    let rest: usize = len % DIRECT_IO_ALIGN;
    let body: usize = len - rest;
    let mut out: Vec<Piece> = Vec::new();
    push_body(&mut out, body);
    proof {
        assert(out@ =~= body_pieces(body as nat));
    }
    if rest > 0 {
        out.push(Piece { offset: body as u64, length: 4096, is_tail: true });
    }
    out
}

/// Plans the reading of a file.
pub fn plan_read(file_size: usize) -> (r: Vec<Piece>)
    requires
        file_size + DIRECT_IO_ALIGN - 1 <= usize::MAX,
    ensures
        r@ == read_pieces(file_size as nat),
{
    let total: usize = aligned_length(file_size);
    let mut out: Vec<Piece> = Vec::new();
    push_body(&mut out, total);
    proof {
        assert(out@ =~= body_pieces(total as nat));
    }
    out
}

/// `len` rounded up to whole blocks.
pub fn aligned_length(len: usize) -> (r: usize)
    requires
        len + DIRECT_IO_ALIGN - 1 <= usize::MAX,
    ensures
        r == round_up(len as nat, DIRECT_IO_ALIGN as nat),
        len <= r < len + DIRECT_IO_ALIGN,
        r % DIRECT_IO_ALIGN == 0,
{
    proof {
        aligned_buffer::lemma_round_up(len as nat, DIRECT_IO_ALIGN as nat);
    }
    ((len + (DIRECT_IO_ALIGN - 1)) / DIRECT_IO_ALIGN) * DIRECT_IO_ALIGN
}

/// The part of `len` that whole blocks cover, and the rest.
pub fn split_blocks(len: usize) -> (r: (usize, usize))
    ensures
        r.0 == whole_blocks(len as nat),
        r.0 + r.1 == len,
        r.1 < DIRECT_IO_ALIGN,
        r.0 % DIRECT_IO_ALIGN == 0,
{
    let rest: usize = len % DIRECT_IO_ALIGN;
    (len - rest, rest)
}

/// The pieces follow one another without a gap, start at zero, and end at `end`.
pub open spec fn tiles(p: Seq<Piece>, end: int) -> bool {
    &&& forall|i: int, j: int| #![trigger p[i], p[j]]
        0 <= i && j == i + 1 < p.len() ==> p[j].offset == p[i].offset + p[i].length
    &&& p.len() == 0 ==> end == 0
    &&& p.len() > 0 ==> p[0].offset == 0 && p.last().offset + p.last().length == end
}

proof fn lemma_body_tiles(total: nat)
    requires
        total <= usize::MAX,
    ensures
        tiles(body_pieces(total), total as int),
        forall|i: int|
            0 <= i < body_pieces(total).len() ==> 1 <= (#[trigger] body_pieces(total)[i]).length
                <= MAX_AIO_CHUNK,
{
    let p = body_pieces(total);
    let n = body_count(total) as int;
    assert forall|i: int, j: int| #![trigger p[i], p[j]] 0 <= i && j == i + 1 < p.len() implies p[j].offset
        == p[i].offset + p[i].length by {
        lemma_body(total, i);
        lemma_body(total, j);
    }
    assert forall|i: int| 0 <= i < p.len() implies 1 <= (#[trigger] p[i]).length
        <= MAX_AIO_CHUNK by {
        lemma_body(total, i);
    }
    if n > 0 {
        lemma_body(total, 0);
        lemma_body(total, n - 1);
    } else {
        vstd::arithmetic::div_mod::lemma_fundamental_div_mod(
            total + MAX_AIO_CHUNK - 1,
            MAX_AIO_CHUNK as int,
        );
    }
}

/// The pieces of a write cover all bytes and, past them, less than a block of padding; none is
/// larger than a submission may be.
pub proof fn write_covers_everything(len: usize)
    ensures
        tiles(write_pieces(len as nat), round_up(len as nat, DIRECT_IO_ALIGN as nat) as int),
        forall|i: int|
            0 <= i < write_pieces(len as nat).len() ==> 1 <= (#[trigger] write_pieces(
                len as nat,
            )[i]).length <= MAX_AIO_CHUNK,
{
    let body = whole_blocks(len as nat);
    lemma_body_tiles(body);
    aligned_buffer::lemma_round_up(len as nat, DIRECT_IO_ALIGN as nat);
    let p = write_pieces(len as nat);
    let b = body_pieces(body);
    if body < len {
        assert forall|i: int, j: int| #![trigger p[i], p[j]] 0 <= i && j == i + 1
            < p.len() implies p[j].offset == p[i].offset + p[i].length by {
            assert(p[i] == b[i]);
            if j < b.len() {
                assert(p[j] == b[j]);
            } else {
                assert(b.last() == b[i]);
            }
        }
        if b.len() > 0 {
            assert(p[0] == b[0]);
        }
        assert forall|i: int| 0 <= i < p.len() implies 1 <= (#[trigger] p[i]).length
            <= MAX_AIO_CHUNK by {
            if i < b.len() {
                assert(p[i] == b[i]);
            }
        }
        assert(round_up(len as nat, DIRECT_IO_ALIGN as nat) == body + DIRECT_IO_ALIGN);
    }
}

/// The pieces of a read cover the file and, past it, less than a block.
pub proof fn read_covers_the_file(file_size: usize)
    requires
        file_size + DIRECT_IO_ALIGN - 1 <= usize::MAX,
    ensures
        tiles(read_pieces(file_size as nat), round_up(file_size as nat, DIRECT_IO_ALIGN as nat) as int),
        file_size <= round_up(file_size as nat, DIRECT_IO_ALIGN as nat) < file_size
            + DIRECT_IO_ALIGN,
{
    aligned_buffer::lemma_round_up(file_size as nat, DIRECT_IO_ALIGN as nat);
    lemma_body_tiles(round_up(file_size as nat, DIRECT_IO_ALIGN as nat));
}

/// `to` once a piece of `from` was moved to its place, as far as `from` reaches.
pub open spec fn moved(to: Seq<u8>, from: Seq<u8>, p: Piece) -> Seq<u8> {
    Seq::new(
        to.len(),
        |b: int|
            if p.offset <= b < p.offset + p.length && b < from.len() {
                from[b]
            } else {
                to[b]
            },
    )
}

/// `to` once pieces of `from` were moved, one after the other.
pub open spec fn moved_all(to: Seq<u8>, from: Seq<u8>, pieces: Seq<Piece>) -> Seq<u8>
    decreases pieces.len(),
{
    if pieces.len() == 0 {
        to
    } else {
        moved(moved_all(to, from, pieces.drop_last()), from, pieces.last())
    }
}

/// Every piece of a plan is among those that were carried out.
pub open spec fn carries_out(done: Seq<Piece>, plan: Seq<Piece>) -> bool {
    forall|i: int| 0 <= i < plan.len() ==> done.contains(#[trigger] plan[i])
}

proof fn lemma_moved_byte(to: Seq<u8>, from: Seq<u8>, pieces: Seq<Piece>, b: int)
    requires
        0 <= b < to.len(),
        b < from.len(),
        exists|i: int|
            0 <= i < pieces.len() && (#[trigger] pieces[i]).offset <= b < pieces[i].offset
                + pieces[i].length,
    ensures
        moved_all(to, from, pieces).len() == to.len(),
        moved_all(to, from, pieces)[b] == from[b],
    decreases pieces.len(),
{
    lemma_moved_len(to, from, pieces);
    let front = pieces.drop_last();
    lemma_moved_len(to, from, front);
    let last = pieces.last();
    if !(last.offset <= b < last.offset + last.length) {
        let i = choose|i: int|
            0 <= i < pieces.len() && (#[trigger] pieces[i]).offset <= b < pieces[i].offset
                + pieces[i].length;
        assert(front[i] == pieces[i]);
        lemma_moved_byte(to, from, front, b);
    }
}

proof fn lemma_moved_len(to: Seq<u8>, from: Seq<u8>, pieces: Seq<Piece>)
    ensures
        moved_all(to, from, pieces).len() == to.len(),
    decreases pieces.len(),
{
    if pieces.len() > 0 {
        lemma_moved_len(to, from, pieces.drop_last());
    }
}

proof fn lemma_tile_of(p: Seq<Piece>, end: int, b: int)
    requires
        tiles(p, end),
        0 <= b < end,
    ensures
        exists|i: int|
            0 <= i < p.len() && (#[trigger] p[i]).offset <= b < p[i].offset + p[i].length,
    decreases p.len(),
{
    let last = p.last();
    if b < last.offset {
        let front = p.drop_last();
        assert(front.len() > 0) by {
            assert(p[0].offset == 0);
        }
        let k = front.len() - 1;
        assert(p[k + 1].offset == p[k].offset + p[k].length);
        assert forall|i: int, j: int| #![trigger front[i], front[j]] 0 <= i && j == i + 1
            < front.len() implies front[j].offset == front[i].offset + front[i].length by {
            assert(p[j].offset == p[i].offset + p[i].length);
        }
        lemma_tile_of(front, last.offset as int, b);
        let i = choose|i: int|
            0 <= i < front.len() && (#[trigger] front[i]).offset <= b < front[i].offset
                + front[i].length;
        assert(p[i] == front[i]);
    } else {
        assert(p[p.len() - 1] == last);
    }
}

proof fn lemma_moved_all(to: Seq<u8>, from: Seq<u8>, done: Seq<Piece>, plan: Seq<Piece>)
    requires
        tiles(plan, to.len() as int),
        carries_out(done, plan),
        from.len() <= to.len(),
    ensures
        moved_all(to, from, done).take(from.len() as int) == from,
{
    lemma_moved_len(to, from, done);
    assert forall|b: int| 0 <= b < from.len() implies moved_all(to, from, done)[b] == from[b] by {
        lemma_tile_of(plan, to.len() as int, b);
        let i = choose|i: int|
            0 <= i < plan.len() && (#[trigger] plan[i]).offset <= b < plan[i].offset
                + plan[i].length;
        assert(done.contains(plan[i]));
        let k = choose|k: int| 0 <= k < done.len() && done[k] == plan[i];
        assert(done[k].offset <= b < done[k].offset + done[k].length);
        lemma_moved_byte(to, from, done, b);
    }
    assert(moved_all(to, from, done).take(from.len() as int) =~= from);
}

/// What is written by the planned pieces and cut to its length is the data, and what is then
/// read by the planned pieces and cut to the length of the file is the data again. The pieces
/// may be carried out in any order, and what was on the disk, in memory and in the padding makes
/// no difference.
pub proof fn written_data_is_read_back(
    data: Seq<u8>,
    padded: Seq<u8>,
    disk: Seq<u8>,
    memory: Seq<u8>,
    writes: Seq<Piece>,
    reads: Seq<Piece>,
)
    requires
        data.len() + DIRECT_IO_ALIGN - 1 <= usize::MAX,
        padded.len() == round_up(data.len(), DIRECT_IO_ALIGN as nat),
        padded.take(data.len() as int) == data,
        disk.len() == padded.len(),
        memory.len() == padded.len(),
        carries_out(writes, write_pieces(data.len())),
        carries_out(reads, read_pieces(data.len())),
    ensures
        ({
            let file = moved_all(disk, padded, writes).take(data.len() as int);
            file == data && moved_all(memory, file, reads).take(data.len() as int) == data
        }),
{
    let n = data.len() as usize;
    write_covers_everything(n);
    read_covers_the_file(n);
    lemma_moved_all(disk, padded, writes, write_pieces(data.len()));
    lemma_moved_len(disk, padded, writes);
    let whole = moved_all(disk, padded, writes);
    assert(whole.take(padded.len() as int) =~= whole);
    assert(whole == padded);
    lemma_moved_all(memory, data, reads, read_pieces(data.len()));
}

fn internal(text: String) -> (r: KVError)
    ensures
        r is Internal,
        r->Internal_0@ == text@,
{
    KVError::Internal(text)
}

/// Who writes aligned bytes. Each names itself where it refuses them.
#[derive(Clone, Copy, PartialEq, Eq, Structural, Debug)]
pub enum AlignedWriter {
    ThreadPool,
    Ring,
}

impl AlignedWriter {
    /// What the writer calls itself.
    pub open spec fn name(self) -> Seq<char> {
        match self {
            AlignedWriter::ThreadPool => "write_aligned_impl"@,
            AlignedWriter::Ring => "do_write_aligned_batch"@,
        }
    }
}

/// Checks the address that aligned bytes are written from.
pub fn check_write_source(writer: AlignedWriter, address: usize) -> (r: Result<(), KVError>)
    ensures
        address % DIRECT_IO_ALIGN == 0 ==> r is Ok,
        address % DIRECT_IO_ALIGN != 0 ==> r is Err && r->Err_0 is Internal
            && r->Err_0->Internal_0@ == writer.name() + ": ptr 0x"@ + hex_digits(address as nat)
            + " not 4K-aligned"@,
{
    if address % DIRECT_IO_ALIGN != 0 {
        let mut text = match writer {
            AlignedWriter::ThreadPool => "write_aligned_impl".to_owned(),
            AlignedWriter::Ring => "do_write_aligned_batch".to_owned(),
        };
        text.append(": ptr 0x");
        text::push_hex_digits(&mut text, address as u64);
        text.append(" not 4K-aligned");
        return Err(internal(text));
    }
    Ok(())
}

/// What is wrong with the memory that a file is read into, before the file is looked at.
pub open spec fn target_fault(address: usize, capacity: usize) -> Option<Seq<char>> {
    if address % DIRECT_IO_ALIGN != 0 {
        Some(
            "read_aligned_into_ptr: ptr 0x"@ + hex_digits(address as nat) + " not 4K-aligned"@,
        )
    } else if capacity % DIRECT_IO_ALIGN != 0 {
        Some("read_aligned_into_ptr: capacity "@ + decimal(capacity as nat) + " not 4K-aligned"@)
    } else {
        None
    }
}

/// Checks the memory that a file is read into.
pub fn check_read_target(address: usize, capacity: usize) -> (r: Result<(), KVError>)
    ensures
        match target_fault(address, capacity) {
            None => r is Ok,
            Some(m) => r is Err && r->Err_0 is Internal && r->Err_0->Internal_0@ == m,
        },
{
    if address % DIRECT_IO_ALIGN != 0 {
        let mut text = "read_aligned_into_ptr: ptr 0x".to_owned();
        text::push_hex_digits(&mut text, address as u64);
        text.append(" not 4K-aligned");
        return Err(internal(text));
    }
    if capacity % DIRECT_IO_ALIGN != 0 {
        let mut text = "read_aligned_into_ptr: capacity ".to_owned();
        text::push_decimal(&mut text, capacity as u64);
        text.append(" not 4K-aligned");
        return Err(internal(text));
    }
    Ok(())
}

/// Plans the reading of a file into memory of `capacity` bytes. An empty file takes no pieces.
pub fn plan_read_into(capacity: usize, file_size: usize) -> (r: Result<Vec<Piece>, KVError>)
    requires
        file_size + DIRECT_IO_ALIGN - 1 <= usize::MAX,
    ensures
        if file_size > 0 && capacity < round_up(file_size as nat, DIRECT_IO_ALIGN as nat) {
            r is Err && r->Err_0 is Internal && r->Err_0->Internal_0@
                == "read_aligned_into_ptr: capacity "@ + decimal(capacity as nat)
                + " < aligned file_size "@ + decimal(
                round_up(file_size as nat, DIRECT_IO_ALIGN as nat),
            )
        } else {
            r is Ok && r->Ok_0@ == read_pieces(file_size as nat)
        },
{
    let total: usize = aligned_length(file_size);
    if file_size > 0 && capacity < total {
        let mut text = "read_aligned_into_ptr: capacity ".to_owned();
        text::push_decimal(&mut text, capacity as u64);
        text.append(" < aligned file_size ");
        text::push_decimal(&mut text, total as u64);
        return Err(internal(text));
    }
    Ok(plan_read(file_size))
}

/// Checks that a file fits where it is read without direct I/O.
pub fn check_fallback_read(file_size: usize, capacity: usize) -> (r: Result<(), KVError>)
    ensures
        file_size <= capacity ==> r is Ok,
        file_size > capacity ==> r is Err && r->Err_0 is Internal && r->Err_0->Internal_0@
            == "fallback read: file_size "@ + decimal(file_size as nat) + " > capacity "@ + decimal(
            capacity as nat,
        ),
{
    if file_size > capacity {
        let mut text = "fallback read: file_size ".to_owned();
        text::push_decimal(&mut text, file_size as u64);
        text.append(" > capacity ");
        text::push_decimal(&mut text, capacity as u64);
        return Err(internal(text));
    }
    Ok(())
}

/// Checks what a vectored write of `expected` bytes returned.
pub fn check_vectored_write(written: i32, expected: usize) -> (r: Result<(), KVError>)
    requires
        written >= 0,
    ensures
        written >= expected ==> r is Ok,
        written < expected ==> r is Err && r->Err_0 is Internal && r->Err_0->Internal_0@
            == "writev short: wrote "@ + signed_decimal(written as int) + " of "@ + decimal(
            expected as nat,
        ),
{
    if (written as u64) < expected as u64 {
        let mut text = "writev short: wrote ".to_owned();
        text::push_signed(&mut text, written as i64);
        text.append(" of ");
        text::push_decimal(&mut text, expected as u64);
        return Err(internal(text));
    }
    Ok(())
}

/// Tag of piece `seq` of request `io`, by which its completion is recognised.
pub open spec fn tag(io: nat, seq: nat) -> nat {
    io * 0x1_0000_0000 + seq
}

/// The tag of piece `seq` of request `io`.
pub fn encode_tag(io: usize, seq: usize) -> (r: u64)
    requires
        io <= u32::MAX,
        seq <= u32::MAX,
    ensures
        r == tag(io as nat, seq as nat),
{
    let a: u64 = io as u64;
    let b: u64 = seq as u64;
    assert((a << 32) | b == a * 0x1_0000_0000 + b) by (bit_vector)
        requires
            a <= 0xffff_ffff,
            b <= 0xffff_ffff,
    ;
    (a << 32) | b
}

/// The request that a tag belongs to.
pub fn decode_tag(t: u64) -> (r: u64)
    ensures
        r == t / 0x1_0000_0000,
{
    assert(t >> 32 == t / 0x1_0000_0000) by (bit_vector);
    t >> 32
}

/// A tag names its request and piece, and no other.
pub proof fn tags_are_unambiguous(io: nat, seq: nat)
    requires
        seq <= u32::MAX,
    ensures
        tag(io, seq) / 0x1_0000_0000 == io,
        tag(io, seq) % 0x1_0000_0000 == seq,
{
}

/// How many submissions are made at a time: half the queue, taken as at least eight.
pub fn batch_size(queue_entries: u32) -> (r: usize)
    ensures
        r == (if queue_entries < 8 {
            4
        } else {
            queue_entries as int / 2
        }),
        r >= 4,
{
    if queue_entries < 8 {
        4
    } else {
        (queue_entries / 2) as usize
    }
}

// ---- partial transfers ----
/// The lengths of segments, from `start` on, together.
pub open spec fn rest_of(lens: Seq<usize>, start: int) -> nat
    decreases lens.len() - start,
{
    if start >= lens.len() {
        0
    } else {
        lens[start] as nat + rest_of(lens, start + 1)
    }
}

/// How far a list of segments was written: all before `start`, and `offset` bytes of that one.
#[derive(Debug, Clone, Copy, PartialEq, Eq, Structural)]
pub struct Progress {
    pub start: usize,
    pub offset: usize,
}

impl Progress {
    /// The position lies inside the list: an unfinished segment is not past its end.
    pub open spec fn wf(self, lens: Seq<usize>) -> bool {
        &&& self.start <= lens.len()
        &&& self.start < lens.len() ==> self.offset <= lens[self.start as int]
        &&& self.start == lens.len() ==> self.offset == 0
    }

    /// The bytes that are left to write.
    pub open spec fn left(self, lens: Seq<usize>) -> int {
        rest_of(lens, self.start as int) - self.offset
    }
}

/// Moves on by the number of bytes that a vectored write took.
pub fn advance(lens: &Vec<usize>, p: Progress, written: usize) -> (r: Progress)
    requires
        p.wf(lens@),
        p.start < lens@.len(),
        written <= p.left(lens@),
    ensures
        r.wf(lens@),
        r.left(lens@) == p.left(lens@) - written,
        r.left(lens@) == 0 ==> r.start == lens@.len(),
        r.start < lens@.len() ==> r.offset < lens@[r.start as int],
{
    let n: usize = lens.len();
    let first: usize = lens[p.start] - p.offset;
    if written < first {
        return Progress { start: p.start, offset: p.offset + written };
    }
    let mut remaining: usize = written - first;
    let mut start: usize = p.start + 1;
    while start < n && remaining >= lens[start]
        invariant
            n == lens.len(),
            p.start < start <= n,
            remaining <= rest_of(lens@, start as int),
            rest_of(lens@, start as int) - remaining == p.left(lens@) - written,
        decreases n - start,
    {
        remaining = remaining - lens[start];
        start = start + 1;
    }
    Progress { start, offset: remaining }
}

/// How a direct read goes on.
#[derive(Debug, Clone, Copy, PartialEq, Eq, Structural)]
pub enum ReadNext {
    /// Read on at this position.
    Continue(usize),
    /// The file is read.
    Done,
    /// The position is no longer aligned: start again without direct I/O.
    Fallback,
}

/// Decides how a direct read of a file goes on after `n` more bytes.
pub fn read_next(total: usize, n: usize, aligned_len: usize, file_size: usize) -> (r: ReadNext)
    requires
        total + n <= usize::MAX,
    ensures
        r == (if n == 0 {
            ReadNext::Done
        } else if total + n < aligned_len && (total + n) % DIRECT_IO_ALIGN as int != 0 {
            ReadNext::Fallback
        } else if total + n >= file_size || total + n >= aligned_len {
            ReadNext::Done
        } else {
            ReadNext::Continue((total + n) as usize)
        }),
{
    if n == 0 {
        return ReadNext::Done;
    }
    let total: usize = total + n;
    if total < aligned_len && total % DIRECT_IO_ALIGN != 0 {
        return ReadNext::Fallback;
    }
    if total >= file_size || total >= aligned_len {
        return ReadNext::Done;
    }
    ReadNext::Continue(total)
}

/// Moves a write on by `n` bytes; a write that takes nothing fails with `message`.
pub fn write_next(written: usize, n: usize, message: &str) -> (r: Result<usize, KVError>)
    requires
        written + n <= usize::MAX,
    ensures
        n > 0 ==> r is Ok && r->Ok_0 == written + n,
        n == 0 ==> r is Err && r->Err_0 is Internal && r->Err_0->Internal_0@ == message@,
{
    if n == 0 {
        return Err(internal(message.to_owned()));
    }
    Ok(written + n)
}

// ---- what is reported of a batch ----
/// Counts of a batch of requests.
#[derive(Debug, Clone, Copy, PartialEq, Eq, Structural)]
pub struct IoBatchStats {
    pub request_count: usize,
    pub success_count: usize,
    pub failure_count: usize,
    pub requested_bytes: usize,
    pub completed_bytes: usize,
    pub queue_wait_us: u64,
    pub duration_us: u64,
}

/// The bytes asked for.
pub open spec fn sum(s: Seq<usize>) -> nat
    decreases s.len(),
{
    if s.len() == 0 {
        0
    } else {
        sum(s.drop_last()) + s.last() as nat
    }
}

/// The bytes of the requests that succeeded.
pub open spec fn completed_sum(s: Seq<Option<usize>>) -> nat
    decreases s.len(),
{
    if s.len() == 0 {
        0
    } else {
        completed_sum(s.drop_last()) + (match s.last() {
            Some(n) => n as nat,
            None => 0,
        })
    }
}

/// How many requests succeeded.
pub open spec fn completed_count(s: Seq<Option<usize>>) -> nat
    decreases s.len(),
{
    if s.len() == 0 {
        0
    } else {
        completed_count(s.drop_last()) + (if s.last() is Some {
            1nat
        } else {
            0
        })
    }
}

proof fn lemma_sum_prefix(s: Seq<usize>, n: int)
    requires
        0 <= n <= s.len(),
    ensures
        sum(s.take(n)) <= sum(s),
    decreases s.len() - n,
{
    if n < s.len() {
        lemma_sum_prefix(s, n + 1);
        assert(s.take(n + 1).drop_last() =~= s.take(n));
    } else {
        assert(s.take(n) =~= s);
    }
}

proof fn lemma_completed_prefix(s: Seq<Option<usize>>, n: int)
    requires
        0 <= n <= s.len(),
    ensures
        completed_sum(s.take(n)) <= completed_sum(s),
    decreases s.len() - n,
{
    if n < s.len() {
        lemma_completed_prefix(s, n + 1);
        assert(s.take(n + 1).drop_last() =~= s.take(n));
    } else {
        assert(s.take(n) =~= s);
    }
}

/// Counts a batch: `requested` bytes per request, and the bytes completed by those that
/// succeeded.
pub fn batch_stats(
    requested: &Vec<usize>,
    completed: &Vec<Option<usize>>,
    queue_wait_us: u64,
    duration_us: u64,
) -> (r: IoBatchStats)
    requires
        sum(requested@) <= usize::MAX,
        completed_sum(completed@) <= usize::MAX,
    ensures
        r == (IoBatchStats {
            request_count: requested@.len() as usize,
            success_count: completed_count(completed@) as usize,
            failure_count: (if completed_count(completed@) <= requested@.len() {
                requested@.len() - completed_count(completed@)
            } else {
                0
            }) as usize,
            requested_bytes: sum(requested@) as usize,
            completed_bytes: completed_sum(completed@) as usize,
            queue_wait_us,
            duration_us,
        }),
        r.request_count == requested@.len(),
        r.success_count == completed_count(completed@),
        r.requested_bytes == sum(requested@),
        r.completed_bytes == completed_sum(completed@),
{
    let mut requested_bytes: usize = 0;
    let mut i: usize = 0;
    while i < requested.len()
        invariant
            i <= requested.len(),
            sum(requested@) <= usize::MAX,
            requested_bytes == sum(requested@.take(i as int)),
        decreases requested.len() - i,
    {
        proof {
            assert(requested@.take(i + 1).drop_last() =~= requested@.take(i as int));
            lemma_sum_prefix(requested@, i + 1);
        }
        requested_bytes = requested_bytes + requested[i];
        i = i + 1;
    }
    let mut completed_bytes: usize = 0;
    let mut success_count: usize = 0;
    let mut j: usize = 0;
    while j < completed.len()
        invariant
            j <= completed.len(),
            completed_sum(completed@) <= usize::MAX,
            completed_bytes == completed_sum(completed@.take(j as int)),
            success_count == completed_count(completed@.take(j as int)),
            success_count <= j,
        decreases completed.len() - j,
    {
        proof {
            assert(completed@.take(j + 1).drop_last() =~= completed@.take(j as int));
            lemma_completed_prefix(completed@, j + 1);
        }
        match completed[j] {
            Some(n) => {
                completed_bytes = completed_bytes + n;
                success_count = success_count + 1;
            },
            None => {},
        }
        j = j + 1;
    }
    proof {
        assert(requested@.take(i as int) =~= requested@);
        assert(completed@.take(j as int) =~= completed@);
    }
    let request_count: usize = requested.len();
    IoBatchStats {
        request_count,
        success_count,
        failure_count: request_count.saturating_sub(success_count),
        requested_bytes,
        completed_bytes,
        queue_wait_us,
        duration_us,
    }
}

/// The bytes that a completed request is reported to have asked for: a read of a whole file
/// asked for what it got.
pub fn reported_request(is_read: bool, length: usize, completed: usize) -> (r: usize)
    ensures
        r == (if is_read && length == 0 {
            completed
        } else {
            length
        }),
{
    if is_read && length == 0 {
        completed
    } else {
        length
    }
}

} // verus!
