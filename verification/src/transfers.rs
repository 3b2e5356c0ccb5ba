//! How reads and writes reach the devices: pieces that direct I/O accepts, the device that a path
//! belongs to, and what a batch is counted as.
use crate::aligned_buffer;
use crate::aligned_buffer::{capacity_for, round_up};
use crate::io_plan;
use crate::io_plan::{
    completed_count, completed_sum, read_pieces, rest_of, sum, target_fault, whole_blocks, write_pieces,
    Piece, Progress, DIRECT_IO_ALIGN, MAX_AIO_CHUNK,
};
use crate::io_rounds;
use crate::io_rounds::{queue_of, Submission};
use crate::io_route;
use crate::io_route::{first_match, grouped, longest_first, positions, with_prefix, DeviceGroup};
use crate::paths::{
    absolute, components, components_of, from_root, is_component, normal, path_under,
};
use crate::text::{byte_len, fields};
use crate::texts;
use vstd::prelude::*;
use vstd::string::*;

verus! {

/// A piece begins and ends on a block, so that the device takes it.
pub open spec fn on_blocks(p: Piece) -> bool {
    p.offset % 4096 == 0 && p.length % 4096 == 0
}

proof fn lemma_blocks(total: nat, i: int)
    requires
        total % 4096 == 0,
        0 <= i < io_plan::body_count(total),
        total <= u64::MAX,
    ensures
        on_blocks(io_plan::body_piece(total, i)),
        io_plan::body_piece(total, i).offset == i * MAX_AIO_CHUNK,
        i + 1 < io_plan::body_count(total) ==> io_plan::body_piece(total, i).length
            == MAX_AIO_CHUNK,
        io_plan::body_piece(total, i).length <= MAX_AIO_CHUNK,
{
    let n = io_plan::body_count(total);
    let start = i * MAX_AIO_CHUNK;
    assert(start < total && (i + 1 < n ==> start + MAX_AIO_CHUNK < total)) by (nonlinear_arith)
        requires
            start == i * 4194304,
            n == (total + 4194304 - 1) / 4194304,
            0 <= i < n,
            MAX_AIO_CHUNK == 4194304,
    ;
    assert(start % 4096 == 0) by (nonlinear_arith)
        requires
            start == i * 4194304,
    ;
}

/// A write goes out in pieces on whole blocks, each as large as the device takes but for the last
/// ones; what does not fill a block goes out in a block of its own, and only that does.
pub proof fn writes_are_cut_on_blocks(len: usize, i: int)
    requires
        0 <= i < write_pieces(len as nat).len(),
    ensures
        ({
            let p = write_pieces(len as nat);
            &&& on_blocks(p[i])
            &&& p[i].length <= 4194304
            &&& p[i].is_tail <==> i + 1 == p.len() && len % 4096 != 0
            &&& p[i].is_tail ==> p[i].length == 4096 && p[i].offset <= len < p[i].offset + 4096
            &&& i + 2 < p.len() ==> p[i].length == 4194304
            &&& i + 1 < p.len() && len % 4096 == 0 ==> p[i].length == 4194304
        }),
{
    let body = whole_blocks(len as nat);
    assert(body % 4096 == 0);
    if i < io_plan::body_count(body) {
        lemma_blocks(body, i);
    }
}

/// A read goes out in pieces on whole blocks, each as large as the device takes but for the last.
pub proof fn reads_are_cut_on_blocks(file_size: usize, i: int)
    requires
        file_size + DIRECT_IO_ALIGN - 1 <= usize::MAX,
        0 <= i < read_pieces(file_size as nat).len(),
    ensures
        ({
            let p = read_pieces(file_size as nat);
            &&& on_blocks(p[i])
            &&& p[i].length <= 4194304
            &&& !p[i].is_tail
            &&& i + 1 < p.len() ==> p[i].length == 4194304
        }),
{
    aligned_buffer::lemma_round_up(file_size as nat, DIRECT_IO_ALIGN as nat);
    lemma_blocks(round_up(file_size as nat, DIRECT_IO_ALIGN as nat), i);
}

/// The whole blocks of a length are the most that fit into it.
pub proof fn whole_blocks_leave_less_than_one(len: nat)
    ensures
        whole_blocks(len) % 4096 == 0,
        whole_blocks(len) <= len < whole_blocks(len) + 4096,
{
}

/// A buffer holds what it was asked to hold and not a block more, in whole multiples of its
/// alignment; even an empty one has room.
pub proof fn capacity_is_the_least_that_serves(min_size: nat, align: nat, other: nat)
    requires
        align > 0,
    ensures
        capacity_for(min_size, align) >= min_size,
        capacity_for(min_size, align) >= align,
        capacity_for(min_size, align) % align == 0,
        other >= min_size && other > 0 && other % align == 0 ==> other >= capacity_for(
            min_size,
            align,
        ),
{
    aligned_buffer::lemma_round_up(min_size, align);
    if min_size == 0 {
        assert(align % align == 0) by (nonlinear_arith)
            requires
                align > 0,
        ;
        assert(other > 0 && other % align == 0 ==> other >= align) by (nonlinear_arith)
            requires
                align > 0,
                other >= 0,
        ;
    } else {
        let c = round_up(min_size, align);
        let q = (min_size + align - 1) as nat / align;
        assert(other >= min_size && other % align == 0 ==> other >= q * align)
            by (nonlinear_arith)
            requires
                align > 0,
                min_size > 0,
                q == (min_size + align - 1) / align as int,
        {
            if other >= min_size && other % align == 0 && other < q * align {
                let k = other / align;
                assert(other == k * align);
                assert(k < q);
                assert((k + 1) * align <= q * align);
                assert(q * align <= min_size + align - 1);
            }
        }
    }
}

/// A read can go to an address with room on whole blocks, and to no other.
pub proof fn read_needs_an_aligned_target(address: usize, capacity: usize)
    ensures
        target_fault(address, capacity) is None <==> address % 4096 == 0 && capacity % 4096 == 0,
{
}

/// Counts of a batch are those of its parts together; a request that did not complete counts
/// nothing.
pub proof fn counts_of_a_batch_add_up(
    a: Seq<Option<usize>>,
    b: Seq<Option<usize>>,
    x: Seq<usize>,
    y: Seq<usize>,
)
    ensures
        completed_sum(a + b) == completed_sum(a) + completed_sum(b),
        completed_count(a + b) == completed_count(a) + completed_count(b),
        sum(x + y) == sum(x) + sum(y),
        completed_count(a) <= a.len(),
    decreases a.len() + b.len() + y.len(),
{
    if a.len() > 0 {
        counts_of_a_batch_add_up(a.drop_last(), Seq::empty(), x, Seq::empty());
    }
    if b.len() > 0 {
        counts_of_a_batch_add_up(a, b.drop_last(), x, y);
        assert((a + b).drop_last() =~= a + b.drop_last());
        assert((a + b).last() == b.last());
    } else {
        assert(a + b =~= a);
    }
    if y.len() > 0 {
        counts_of_a_batch_add_up(a, b, x, y.drop_last());
        assert((x + y).drop_last() =~= x + y.drop_last());
        assert((x + y).last() == y.last());
    } else {
        assert(x + y =~= x);
    }
}

/// One request counts its bytes where it completed, and nothing where it did not.
pub proof fn one_request_counts_its_bytes(n: usize)
    ensures
        completed_sum(seq![Some(n)]) == n,
        completed_count(seq![Some(n)]) == 1,
        completed_sum(seq![None::<usize>]) == 0,
        completed_count(seq![None::<usize>]) == 0,
        sum(seq![n]) == n,
{
    assert(seq![Some(n)].drop_last().len() == 0);
    assert(seq![None::<usize>].drop_last().len() == 0);
    assert(seq![n].drop_last().len() == 0);
    assert(completed_sum(seq![Some(n)].drop_last()) == 0);
    assert(completed_count(seq![Some(n)].drop_last()) == 0);
    assert(completed_sum(seq![None::<usize>].drop_last()) == 0);
    assert(completed_count(seq![None::<usize>].drop_last()) == 0);
    assert(sum(seq![n].drop_last()) == 0);
}

proof fn lemma_positions_are_of(devices: Seq<usize>, d: usize, n: nat, j: int)
    requires
        n <= devices.len(),
        devices.len() <= usize::MAX,
        0 <= j < positions(devices, d, n).len(),
    ensures
        positions(devices, d, n)[j] < n,
        devices[positions(devices, d, n)[j] as int] == d,
        forall|k: int| 0 <= k < j ==> positions(devices, d, n)[k] < positions(devices, d, n)[j],
    decreases n,
{
    if n > 0 {
        let m = (n - 1) as nat;
        let before = positions(devices, d, m);
        if j < before.len() {
            lemma_positions_are_of(devices, d, m, j);
        } else {
            assert forall|k: int| 0 <= k < j implies positions(devices, d, n)[k] < n - 1 by {
                lemma_positions_are_of(devices, d, m, k);
            }
        }
    }
}

/// A group of requests is for one device: each request in it goes there, and the requests keep
/// their order.
pub proof fn groups_are_of_one_device(
    g: Seq<DeviceGroup>,
    devices: Seq<usize>,
    i: int,
    j: int,
    k: int,
)
    requires
        grouped(g, devices, devices.len()),
        devices.len() <= usize::MAX,
        io_route::at(g, i, j, k),
    ensures
        0 <= k < devices.len(),
        devices[k] == g[i].device,
        forall|b: int| 0 <= b < j ==> (#[trigger] g[i].members@[b]) < k,
{
    lemma_positions_are_of(devices, g[i].device, devices.len(), j);
}

proof fn lemma_inserted(s: Seq<(Seq<char>, int)>, p: (Seq<char>, int)) -> (k: nat)
    ensures
        k <= s.len(),
        with_prefix(s, p) == s.take(k as int) + seq![p] + s.skip(k as int),
        k > 0 ==> byte_len(s[k - 1].0) >= byte_len(p.0),
        forall|j: int| k <= j < s.len() ==> byte_len((#[trigger] s[j]).0) < byte_len(p.0),
    decreases s.len(),
{
    if s.len() == 0 || byte_len(s.last().0) >= byte_len(p.0) {
        assert(s.push(p) =~= s.take(s.len() as int) + seq![p] + s.skip(s.len() as int));
        s.len()
    } else {
        let k = lemma_inserted(s.drop_last(), p);
        assert(with_prefix(s, p) =~= s.take(k as int) + seq![p] + s.skip(k as int));
        assert forall|j: int| k <= j < s.len() implies byte_len((#[trigger] s[j]).0) < byte_len(
            p.0,
        ) by {
            if j < s.len() - 1 {
                assert(s.drop_last()[j] == s[j]);
            }
        }
        k
    }
}

proof fn lemma_match_append(a: Seq<(Seq<char>, int)>, b: Seq<(Seq<char>, int)>, path: Seq<char>)
    ensures
        first_match(a + b, path) == match first_match(a, path) {
            Some(d) => Some(d),
            None => first_match(b, path),
        },
    decreases a.len(),
{
    if a.len() == 0 {
        assert(a + b =~= b);
    } else {
        assert((a + b)[0] == a[0]);
        assert((a + b).skip(1) =~= a.skip(1) + b);
        lemma_match_append(a.skip(1), b, path);
    }
}

proof fn lemma_no_match(a: Seq<(Seq<char>, int)>, path: Seq<char>)
    ensures
        first_match(a, path) is None <==> forall|j: int|
            0 <= j < a.len() ==> !path_under(path, (#[trigger] a[j]).0),
    decreases a.len(),
{
    if a.len() > 0 {
        lemma_no_match(a.skip(1), path);
        if first_match(a, path) is None {
            assert forall|j: int| 0 <= j < a.len() implies !path_under(path, (#[trigger] a[j]).0) by {
                if j > 0 {
                    assert(a.skip(1)[j - 1] == a[j]);
                }
            }
        } else {
            if !path_under(path, a[0].0) {
                let j = choose|j: int|
                    0 <= j < a.skip(1).len() && path_under(path, (#[trigger] a.skip(1)[j]).0);
                assert(path_under(path, a[j + 1].0));
            }
        }
    }
}

/// A device that is added takes the paths below its directory, but for those that belong to a
/// device in a deeper directory, or in the same one, that was there before; every other path
/// stays with its device.
pub proof fn added_device_takes_its_paths(
    s: Seq<(Seq<char>, int)>,
    p: (Seq<char>, int),
    path: Seq<char>,
)
    requires
        longest_first(s),
    ensures
        !path_under(path, p.0) ==> first_match(with_prefix(s, p), path) == first_match(s, path),
        path_under(path, p.0) && (forall|j: int|
            0 <= j < s.len() && path_under(path, (#[trigger] s[j]).0) ==> byte_len(s[j].0)
                < byte_len(p.0)) ==> first_match(with_prefix(s, p), path) == Some(p.1),
        (exists|j: int|
            0 <= j < s.len() && path_under(path, (#[trigger] s[j]).0) && byte_len(s[j].0)
                >= byte_len(p.0)) ==> first_match(with_prefix(s, p), path) == first_match(s, path),
{
    let k = lemma_inserted(s, p) as int;
    let a = s.take(k);
    let b = s.skip(k);
    assert(s =~= a + b);
    assert(with_prefix(s, p) =~= a + (seq![p] + b));
    lemma_match_append(a, b, path);
    lemma_match_append(a, seq![p] + b, path);
    assert((seq![p] + b)[0] == p);
    assert((seq![p] + b).skip(1) =~= b);
    lemma_no_match(a, path);
    if first_match(a, path) is Some {
        let j = choose|j: int| 0 <= j < a.len() && path_under(path, (#[trigger] a[j]).0);
        assert(s[j] == a[j]);
        assert(byte_len(s[j].0) >= byte_len(s[k - 1].0));
    } else {
        if exists|j: int|
            0 <= j < s.len() && path_under(path, (#[trigger] s[j]).0) && byte_len(s[j].0)
                >= byte_len(p.0) {
            let j = choose|j: int|
                0 <= j < s.len() && path_under(path, (#[trigger] s[j]).0) && byte_len(s[j].0)
                    >= byte_len(p.0);
            assert(j < k);
            assert(a[j] == s[j]);
        }
    }
}

/// A path is the names between its slashes, in their order; an empty name, and a dot that does
/// not come first, say nothing.
pub proof fn path_is_its_names(dir: Seq<char>, name: Seq<char>)
    requires
        !name.contains('/'),
    ensures
        components(dir + seq!['/'] + name) == if name.len() == 0 || name == "."@ {
            components(dir)
        } else {
            components(dir).push(name)
        },
        components(name) == if name.len() == 0 {
            Seq::<Seq<char>>::empty()
        } else {
            seq![name]
        },
{
    texts::separators_part_the_fields(dir, name, '/');
    texts::separators_part_the_fields(name, name, '/');
    let f = fields(dir, '/');
    let all = f + seq![name];
    assert(fields(dir + seq!['/'] + name, '/') =~= all);
    assert(all.drop_last() =~= f);
    assert(all.last() == name);
    assert(is_component(name, all.len() - 1) <==> name.len() > 0 && name != "."@);
    let one = seq![name];
    assert(one.drop_last() =~= Seq::<Seq<char>>::empty());
    assert(components_of(one.drop_last()) =~= Seq::<Seq<char>>::empty());
    assert(is_component(name, one.len() - 1) <==> name.len() > 0);
    assert(components(name) =~= if name.len() == 0 {
        Seq::<Seq<char>>::empty()
    } else {
        seq![name]
    });
}

/// A path is below itself and below every directory that it goes through, and below no directory
/// that only begins with the same letters.
pub proof fn path_is_below_its_directories(
    dir: Seq<char>,
    name: Seq<char>,
    other: Seq<char>,
    a: Seq<char>,
    b: Seq<char>,
    c: Seq<char>,
)
    requires
        dir.len() > 0,
        !name.contains('/'),
        !other.contains('/'),
    ensures
        path_under(a, a),
        path_under(a, b) && path_under(b, c) ==> path_under(a, c),
        path_under(dir + seq!['/'] + name, dir),
        name.len() > 0 && name != "."@ && other.len() > 0 && other != "."@ && name != other
            ==> !path_under(dir + seq!['/'] + name, dir + seq!['/'] + other),
{
    path_is_its_names(dir, name);
    path_is_its_names(dir, other);
    let x = from_root(dir + seq!['/'] + name);
    let y = from_root(dir + seq!['/'] + other);
    let d = from_root(dir);
    assert((dir + seq!['/'] + name)[0] == dir[0]);
    assert((dir + seq!['/'] + other)[0] == dir[0]);
    assert(from_root(a).is_prefix_of(from_root(a)));
    if name.len() > 0 && name != "."@ {
        assert(x =~= d.push(name));
    } else {
        assert(x =~= d);
    }
    assert(d.is_prefix_of(x));
    if path_under(a, b) && path_under(b, c) {
        let fa = from_root(a);
        let fb = from_root(b);
        let fc = from_root(c);
        assert(fc =~= fa.subrange(0, fc.len() as int)) by {
            assert forall|i: int| 0 <= i < fc.len() implies fc[i] == fa[i] by {
                assert(fc[i] == fb.subrange(0, fc.len() as int)[i]);
                assert(fb[i] == fa.subrange(0, fb.len() as int)[i]);
            }
        }
    }
    if name.len() > 0 && name != "."@ && other.len() > 0 && other != "."@ && name != other {
        assert(y =~= d.push(other));
        if y.is_prefix_of(x) {
            assert(y[d.len() as int] == x.subrange(0, y.len() as int)[d.len() as int]);
            assert(x[d.len() as int] == name);
        }
    }
}

/// One piece of work comes before another in a queue: it is of an earlier request, or an earlier
/// piece of the same one.
pub open spec fn queued_before(a: Submission, b: Submission) -> bool {
    a.io < b.io || a.io == b.io && a.seq < b.seq
}

/// Work is queued request by request and piece by piece, so that no piece is queued twice.
pub proof fn work_is_queued_in_order(
    plans: Seq<Seq<Piece>>,
    active: Seq<bool>,
    n: nat,
    k: int,
    l: int,
)
    requires
        plans.len() == active.len(),
        n <= plans.len(),
        plans.len() <= u32::MAX,
        forall|i: int| 0 <= i < plans.len() ==> (#[trigger] plans[i]).len() <= u32::MAX,
        0 <= k < l < queue_of(plans, active, n).len(),
    ensures
        queued_before(queue_of(plans, active, n)[k], queue_of(plans, active, n)[l]),
    decreases n,
{
    if n > 0 {
        let m = (n - 1) as nat;
        let before = queue_of(plans, active, m);
        if l < before.len() {
            work_is_queued_in_order(plans, active, m, k, l);
        } else if k < before.len() {
            io_rounds::queue_is_complete(plans, active, m);
            assert(io_rounds::is_planned(plans, active, m, before[k]));
        }
    }
}

proof fn lemma_rest(lens: Seq<usize>, i: int)
    requires
        0 <= i <= lens.len(),
    ensures
        rest_of(lens, i) + sum(lens.take(i)) == sum(lens),
    decreases lens.len() - i,
{
    if i < lens.len() {
        assert(lens.take(i + 1).drop_last() =~= lens.take(i));
        assert(lens.take(i + 1).last() == lens[i]);
        lemma_rest(lens, i + 1);
    } else {
        assert(lens.take(i) =~= lens);
    }
}

/// What is left of a vectored write is what was not written yet: all of it at first, a buffer
/// less with each buffer, and nothing at the end.
pub proof fn what_is_left_shrinks_by_what_was_written(lens: Seq<usize>, p: Progress)
    requires
        p.wf(lens),
    ensures
        p.left(lens) == sum(lens) - sum(lens.take(p.start as int)) - p.offset,
        p.start == lens.len() ==> p.left(lens) == 0,
        p.start == 0 && p.offset == 0 ==> p.left(lens) == sum(lens),
{
    lemma_rest(lens, p.start as int);
    if p.start == 0 {
        assert(lens.take(0) =~= Seq::<usize>::empty());
    }
}

/// A path that begins with a slash is absolute, in its normal spelling too; no other is.
pub proof fn slash_in_front_makes_a_path_absolute(p: Seq<char>)
    ensures
        absolute(seq!['/'] + p),
        normal(seq!['/'] + p).len() > 0 && normal(seq!['/'] + p)[0] == '/',
        p.len() > 0 && p[0] != '/' ==> !absolute(p),
        !absolute(Seq::empty()),
{
    reveal_strlit("/");
}

} // verus!
