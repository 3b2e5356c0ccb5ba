//! Buffers for direct disk I/O, whose size is a multiple of the block size, and a pool of them.
//! The memory itself is a value `M` that the caller allocates.
use vstd::prelude::*;

verus! {

/// `a` is a power of two.
pub open spec fn is_power_of_two(a: usize) -> bool {
    a > 0 && a & ((a - 1) as usize) == 0
}

/// The smallest multiple of `align` that is not below `size`.
pub open spec fn round_up(size: nat, align: nat) -> nat {
    (size + align - 1) as nat / align * align
}

/// The size that is allocated for `min_size` bytes: a multiple of the alignment, at least one.
pub open spec fn capacity_for(min_size: nat, align: nat) -> nat {
    if min_size == 0 {
        align
    } else {
        round_up(min_size, align)
    }
}

/// Rounding up gives a multiple that is not below the size and less than a block above it.
pub proof fn lemma_round_up(size: nat, align: nat)
    requires
        align > 0,
    ensures
        size <= round_up(size, align) < size + align,
        round_up(size, align) % align == 0,
        size > 0 ==> round_up(size, align) >= align,
        size % align == 0 ==> round_up(size, align) == size,
{
    let m = (size + align - 1) as int;
    let q = m / align as int;
    vstd::arithmetic::div_mod::lemma_fundamental_div_mod(m, align as int);
    vstd::arithmetic::div_mod::lemma_mod_bound(m, align as int);
    assert(align * q == q * align) by (nonlinear_arith);
    vstd::arithmetic::div_mod::lemma_mod_multiples_basic(q, align as int);
    if size > 0 {
        assert(q >= 1) by (nonlinear_arith)
            requires
                m >= align,
                align > 0,
                q == m / align as int,
        ;
        assert(q * align >= align) by (nonlinear_arith)
            requires
                q >= 1,
                align > 0,
        ;
    }
    if size % align == 0 {
        let k = size as int / align as int;
        vstd::arithmetic::div_mod::lemma_fundamental_div_mod(size as int, align as int);
        assert(align * k == k * align) by (nonlinear_arith);
        vstd::arithmetic::div_mod::lemma_fundamental_div_mod_converse(
            m,
            align as int,
            k,
            align - 1,
        );
    }
}

/// The size that is allocated for `min_size` bytes.
pub fn aligned_capacity(min_size: usize, align: usize) -> (r: usize)
    requires
        is_power_of_two(align),
        min_size + align - 1 <= usize::MAX,
    ensures
        r == capacity_for(min_size as nat, align as nat),
        r >= min_size,
        r >= align,
        r % align == 0,
{
    proof {
        lemma_round_up(min_size as nat, align as nat);
        lemma_round_up(align as nat, align as nat);
        vstd::arithmetic::div_mod::lemma_mod_self_0(align as int);
    }
    if min_size == 0 {
        align
    } else {
        ((min_size + (align - 1)) / align) * align
    }
}

/// A buffer of aligned size, of which the first bytes are valid.
pub struct AlignedBuffer<M> {
    mem: M,
    cap: usize,
    len: usize,
    align: usize,
}

impl<M> AlignedBuffer<M> {
    /// The memory.
    pub closed spec fn memory(&self) -> M {
        self.mem
    }

    pub closed spec fn cap(&self) -> usize {
        self.cap
    }

    pub closed spec fn valid(&self) -> usize {
        self.len
    }

    pub closed spec fn alignment(&self) -> usize {
        self.align
    }

    /// No more bytes are valid than were allocated.
    pub open spec fn wf(&self) -> bool {
        self.valid() <= self.cap()
    }

    /// Takes over memory that was allocated for `min_size` bytes. Nothing in it is valid yet.
    pub fn new(mem: M, min_size: usize, align: usize) -> (r: AlignedBuffer<M>)
        requires
            is_power_of_two(align),
            min_size + align - 1 <= usize::MAX,
        ensures
            r.wf(),
            r.memory() == mem,
            r.cap() == capacity_for(min_size as nat, align as nat),
            r.valid() == 0,
            r.alignment() == align,
    {
        let cap: usize = aligned_capacity(min_size, align);
        AlignedBuffer { mem, cap, len: 0, align }
    }

    /// The allocated size.
    pub fn capacity(&self) -> (r: usize)
        ensures
            r == self.cap(),
    {
        self.cap
    }

    /// The number of valid bytes.
    pub fn len(&self) -> (r: usize)
        ensures
            r == self.valid(),
    {
        self.len
    }

    pub fn is_empty(&self) -> (r: bool)
        ensures
            r == (self.valid() == 0),
    {
        self.len == 0
    }

    /// The memory.
    pub fn mem(&self) -> (r: &M)
        ensures
            *r == self.memory(),
    {
        &self.mem
    }

    /// Says how many bytes are valid, after they were written.
    pub fn set_len(&mut self, len: usize)
        requires
            len <= old(self).cap(),
        ensures
            final(self).wf(),
            final(self).valid() == len,
            final(self).cap() == old(self).cap(),
            final(self).memory() == old(self).memory(),
            final(self).alignment() == old(self).alignment(),
    {
        self.len = len;
    }

    /// Shortens the valid part; never lengthens it.
    pub fn truncate(&mut self, len: usize)
        requires
            old(self).wf(),
        ensures
            final(self).wf(),
            final(self).valid() == (if len < old(self).valid() {
                len
            } else {
                old(self).valid()
            }),
            final(self).cap() == old(self).cap(),
            final(self).memory() == old(self).memory(),
            final(self).alignment() == old(self).alignment(),
    {
        if len < self.len {
            self.len = len;
        }
    }

    /// Gives the memory back.
    pub fn into_mem(self) -> (r: M)
        ensures
            r == self.memory(),
    {
        self.mem
    }
}

impl AlignedBuffer<Vec<u8>> {
    /// A buffer in ordinary memory, all zeros.
    pub fn zeroed(min_size: usize, align: usize) -> (r: AlignedBuffer<Vec<u8>>)
        requires
            is_power_of_two(align),
            min_size + align - 1 <= usize::MAX,
        ensures
            r.wf(),
            r.cap() == capacity_for(min_size as nat, align as nat),
            r.valid() == 0,
            r.alignment() == align,
            r.memory()@ == Seq::new(r.cap() as nat, |i: int| 0u8),
    {
        let cap: usize = aligned_capacity(min_size, align);
        let mem: Vec<u8> = vec![0u8; cap];
        proof {
            assert(mem@ =~= Seq::new(cap as nat, |i: int| 0u8));
        }
        AlignedBuffer { mem, cap, len: 0, align }
    }

    /// Writes one byte.
    pub fn write_byte(&mut self, at: usize, value: u8)
        requires
            at < old(self).memory()@.len(),
        ensures
            final(self).memory()@ == old(self).memory()@.update(at as int, value),
            final(self).cap() == old(self).cap(),
            final(self).valid() == old(self).valid(),
            final(self).alignment() == old(self).alignment(),
    {
        self.mem.set(at, value);
    }

    /// The valid bytes.
    pub fn as_slice(&self) -> (r: &[u8])
        requires
            self.valid() <= self.memory()@.len(),
        ensures
            r@ == self.memory()@.take(self.valid() as int),
    {
        vstd::slice::slice_subrange(self.mem.as_slice(), 0, self.len)
    }
}

/// Buffers that wait to be used again, by size. Of each size only so many are kept.
pub struct AlignedBufferPool<M> {
    buckets: Vec<(usize, Vec<AlignedBuffer<M>>)>,
    per_class_cap: usize,
}

impl<M> AlignedBufferPool<M> {
    pub closed spec fn limit(&self) -> usize {
        self.per_class_cap
    }

    /// The buffers of a size, the one released last at the end.
    pub closed spec fn kept(&self, cap: usize) -> Seq<AlignedBuffer<M>> {
        bucket_of(self.buckets@, cap)
    }

    /// Every buffer is kept under its size, and no size has more than the limit.
    pub closed spec fn wf(&self) -> bool {
        &&& forall|i: int, j: int|
            0 <= i < self.buckets@.len() && 0 <= j < self.buckets@.len() && (
            #[trigger] self.buckets@[i]).0 == (#[trigger] self.buckets@[j]).0 ==> i == j
        &&& forall|i: int|
            0 <= i < self.buckets@.len() ==> (#[trigger] self.buckets@[i]).1@.len()
                <= self.per_class_cap
        &&& forall|i: int, k: int|
            0 <= i < self.buckets@.len() && 0 <= k < self.buckets@[i].1@.len() ==> (
            #[trigger] self.buckets@[i].1@[k]).cap() == self.buckets@[i].0
    }

    /// An empty pool that keeps at most so many buffers of each size.
    pub fn new(per_class_cap: usize) -> (r: AlignedBufferPool<M>)
        ensures
            r.wf(),
            r.limit() == per_class_cap,
            forall|cap: usize| #[trigger] r.kept(cap).len() == 0,
    {
        AlignedBufferPool { buckets: Vec::new(), per_class_cap }
    }

    /// No size has more buffers than the limit, and each has the size that it is kept under.
    pub proof fn each_size_is_bounded(&self, cap: usize)
        requires
            self.wf(),
        ensures
            self.kept(cap).len() <= self.limit(),
            forall|k: int| 0 <= k < self.kept(cap).len() ==> (#[trigger] self.kept(cap)[k]).cap()
                == cap,
    {
        lemma_bucket_of(self.buckets@, cap);
        if exists|i: int| 0 <= i < self.buckets@.len() && (#[trigger] self.buckets@[i]).0 == cap {
            let i = choose|i: int|
                0 <= i < self.buckets@.len() && (#[trigger] self.buckets@[i]).0 == cap
                    && bucket_of(self.buckets@, cap) == self.buckets@[i].1@;
            assert forall|k: int| 0 <= k < self.kept(cap).len() implies (
            #[trigger] self.kept(cap)[k]).cap() == cap by {
                assert(self.buckets@[i].1@[k].cap() == self.buckets@[i].0);
            }
        }
    }

    /// Takes a buffer of the size that `min_size` bytes need, with nothing valid in it. Where
    /// there is none, the caller allocates one.
    pub fn acquire(&mut self, min_size: usize, align: usize) -> (r: Option<AlignedBuffer<M>>)
        requires
            old(self).wf(),
            is_power_of_two(align),
            min_size + align - 1 <= usize::MAX,
        ensures
            final(self).wf(),
            final(self).limit() == old(self).limit(),
            ({
                let cap = capacity_for(min_size as nat, align as nat) as usize;
                let kept = old(self).kept(cap);
                if kept.len() > 0 {
                    &&& r is Some
                    &&& r->0.memory() == kept.last().memory()
                    &&& r->0.alignment() == kept.last().alignment()
                    &&& r->0.cap() == cap
                    &&& r->0.valid() == 0
                    &&& r->0.wf()
                    &&& final(self).kept(cap) == kept.drop_last()
                    &&& forall|c: usize| c != cap ==> #[trigger] final(self).kept(c) == old(
                        self,
                    ).kept(c)
                } else {
                    &&& r is None
                    &&& forall|c: usize| #[trigger] final(self).kept(c) == old(self).kept(c)
                }
            }),
    {
        let want: usize = aligned_capacity(min_size, align);
        let ghost before = self.buckets@;
        let mut i: usize = 0;
        while i < self.buckets.len()
            invariant
                i <= self.buckets.len(),
                self.buckets@ == before,
                self.wf(),
                self.per_class_cap == old(self).per_class_cap,
                old(self).buckets@ == before,
                want == capacity_for(min_size as nat, align as nat),
                forall|k: int| 0 <= k < i ==> (#[trigger] before[k]).0 != want,
            decreases self.buckets.len() - i,
        {
            if self.buckets[i].0 == want {
                proof {
                    lemma_bucket_at(before, want, i as int);
                }
                if self.buckets[i].1.len() == 0 {
                    return None;
                }
                let mut bucket: Vec<AlignedBuffer<M>> = Vec::new();
                let mut slot = (want, bucket);
                self.buckets.set_and_swap(i, &mut slot);
                let (_, mut bufs) = slot;
                let taken = bufs.pop();
                self.buckets.set(i, (want, bufs));
                proof {
                    let after = self.buckets@;
                    assert(after =~= before.update(i as int, (want, bufs)));
                    assert forall|c: usize| c != want implies #[trigger] bucket_of(after, c)
                        == bucket_of(before, c) by {
                        lemma_bucket_update(before, i as int, (want, bufs), c);
                    }
                    lemma_bucket_at(after, want, i as int);
                    assert forall|a: int, k: int|
                        0 <= a < after.len() && 0 <= k < after[a].1@.len() implies (
                    #[trigger] after[a].1@[k]).cap() == after[a].0 by {
                        assert(before[a].1@[k].cap() == before[a].0);
                    }
                    assert forall|a: int| 0 <= a < after.len() implies (
                    #[trigger] after[a]).1@.len() <= self.per_class_cap by {
                        assert(before[a].1@.len() <= self.per_class_cap);
                    }
                    assert forall|a: int, b: int|
                        0 <= a < after.len() && 0 <= b < after.len() && (#[trigger] after[a]).0 == (
                        #[trigger] after[b]).0 implies a == b by {
                        assert(before[a].0 == before[b].0);
                    }
                    assert(before[i as int].1@[before[i as int].1@.len() - 1].cap() == want);
                }
                return match taken {
                    Some(b) => {
                        let mut b = b;
                        b.set_len(0);
                        Some(b)
                    },
                    None => None,
                };
            }
            i = i + 1;
        }
        proof {
            lemma_bucket_of(before, want);
        }
        None
    }

    /// Gives a buffer back. It is kept unless there are enough of its size; otherwise the
    /// caller gets it back to free it.
    pub fn release(&mut self, buf: AlignedBuffer<M>) -> (r: Option<AlignedBuffer<M>>)
        requires
            old(self).wf(),
        ensures
            final(self).wf(),
            final(self).limit() == old(self).limit(),
            forall|c: usize| c != buf.cap() ==> #[trigger] final(self).kept(c) == old(self).kept(c),
            if old(self).kept(buf.cap()).len() < old(self).limit() {
                r is None && final(self).kept(buf.cap()) == old(self).kept(buf.cap()).push(buf)
            } else {
                r == Some(buf) && final(self).kept(buf.cap()) == old(self).kept(buf.cap())
            },
    {
        let cap: usize = buf.capacity();
        let ghost before = self.buckets@;
        let mut i: usize = 0;
        while i < self.buckets.len()
            invariant
                i <= self.buckets.len(),
                self.buckets@ == before,
                self.wf(),
                self.per_class_cap == old(self).per_class_cap,
                old(self).buckets@ == before,
                cap == buf.cap(),
                forall|k: int| 0 <= k < i ==> (#[trigger] before[k]).0 != cap,
            decreases self.buckets.len() - i,
        {
            if self.buckets[i].0 == cap {
                proof {
                    lemma_bucket_at(before, cap, i as int);
                }
                if self.buckets[i].1.len() >= self.per_class_cap {
                    return Some(buf);
                }
                let bucket: Vec<AlignedBuffer<M>> = Vec::new();
                let mut slot = (cap, bucket);
                self.buckets.set_and_swap(i, &mut slot);
                let (_, mut bufs) = slot;
                bufs.push(buf);
                self.buckets.set(i, (cap, bufs));
                proof {
                    let after = self.buckets@;
                    assert(after =~= before.update(i as int, (cap, bufs)));
                    assert forall|c: usize| c != cap implies #[trigger] bucket_of(after, c)
                        == bucket_of(before, c) by {
                        lemma_bucket_update(before, i as int, (cap, bufs), c);
                    }
                    lemma_bucket_at(after, cap, i as int);
                    assert forall|a: int, k: int|
                        0 <= a < after.len() && 0 <= k < after[a].1@.len() implies (
                    #[trigger] after[a].1@[k]).cap() == after[a].0 by {
                        if a != i || k < before[i as int].1@.len() {
                            assert(before[a].1@[k].cap() == before[a].0);
                        }
                    }
                    assert forall|a: int| 0 <= a < after.len() implies (
                    #[trigger] after[a]).1@.len() <= self.per_class_cap by {
                        assert(before[a].1@.len() <= self.per_class_cap);
                    }
                    assert forall|a: int, b: int|
                        0 <= a < after.len() && 0 <= b < after.len() && (#[trigger] after[a]).0 == (
                        #[trigger] after[b]).0 implies a == b by {
                        assert(before[a].0 == before[b].0);
                    }
                }
                return None;
            }
            i = i + 1;
        }
        proof {
            lemma_bucket_of(before, cap);
        }
        if self.per_class_cap == 0 {
            return Some(buf);
        }
        let mut bufs: Vec<AlignedBuffer<M>> = Vec::new();
        bufs.push(buf);
        self.buckets.push((cap, bufs));
        proof {
            let after = self.buckets@;
            assert(after =~= before.push((cap, bufs)));
            assert(after.drop_last() =~= before);
            assert(bucket_of(after, cap) =~= bucket_of(before, cap).push(buf));
            assert forall|a: int, k: int|
                0 <= a < after.len() && 0 <= k < after[a].1@.len() implies (
            #[trigger] after[a].1@[k]).cap() == after[a].0 by {
                if a < before.len() {
                    assert(before[a].1@[k].cap() == before[a].0);
                }
            }
            assert forall|a: int| 0 <= a < after.len() implies (#[trigger] after[a]).1@.len()
                <= self.per_class_cap by {
                if a < before.len() {
                    assert(before[a].1@.len() <= self.per_class_cap);
                }
            }
            assert forall|a: int, b: int|
                0 <= a < after.len() && 0 <= b < after.len() && (#[trigger] after[a]).0 == (
                #[trigger] after[b]).0 implies a == b by {
                if a < before.len() && b < before.len() {
                    assert(before[a].0 == before[b].0);
                } else if a < before.len() {
                    assert(before[a].0 != cap);
                } else if b < before.len() {
                    assert(before[b].0 != cap);
                }
            }
        }
        None
    }
}

/// The buffers listed under a size.
pub open spec fn bucket_of<M>(b: Seq<(usize, Vec<AlignedBuffer<M>>)>, cap: usize) -> Seq<
    AlignedBuffer<M>,
>
    decreases b.len(),
{
    if b.len() == 0 {
        Seq::empty()
    } else if b.last().0 == cap {
        b.last().1@
    } else {
        bucket_of(b.drop_last(), cap)
    }
}

proof fn lemma_bucket_of<M>(b: Seq<(usize, Vec<AlignedBuffer<M>>)>, cap: usize)
    ensures
        (exists|i: int| 0 <= i < b.len() && (#[trigger] b[i]).0 == cap) ==> exists|i: int|
            0 <= i < b.len() && (#[trigger] b[i]).0 == cap && bucket_of(b, cap) == b[i].1@,
        (forall|i: int| 0 <= i < b.len() ==> (#[trigger] b[i]).0 != cap) ==> bucket_of(
            b,
            cap,
        ).len() == 0,
    decreases b.len(),
{
    if b.len() > 0 {
        let f = b.drop_last();
        lemma_bucket_of(f, cap);
        if b.last().0 == cap {
            assert(b[b.len() - 1].0 == cap);
        } else {
            if exists|i: int| 0 <= i < b.len() && (#[trigger] b[i]).0 == cap {
                let i = choose|i: int| 0 <= i < b.len() && (#[trigger] b[i]).0 == cap;
                assert(f[i].0 == cap);
                let j = choose|j: int|
                    0 <= j < f.len() && (#[trigger] f[j]).0 == cap && bucket_of(f, cap) == f[j].1@;
                assert(b[j].0 == cap && bucket_of(b, cap) == b[j].1@);
            } else {
                assert forall|i: int| 0 <= i < f.len() implies (#[trigger] f[i]).0 != cap by {
                    assert(b[i].0 != cap);
                }
            }
        }
    }
}

proof fn lemma_bucket_at<M>(b: Seq<(usize, Vec<AlignedBuffer<M>>)>, cap: usize, i: int)
    requires
        0 <= i < b.len(),
        b[i].0 == cap,
        forall|x: int, y: int|
            0 <= x < b.len() && 0 <= y < b.len() && (#[trigger] b[x]).0 == (#[trigger] b[y]).0 ==> x
                == y,
    ensures
        bucket_of(b, cap) == b[i].1@,
{
    lemma_bucket_of(b, cap);
    let j = choose|j: int|
        0 <= j < b.len() && (#[trigger] b[j]).0 == cap && bucket_of(b, cap) == b[j].1@;
    assert(b[i].0 == b[j].0);
}

proof fn lemma_bucket_update<M>(
    b: Seq<(usize, Vec<AlignedBuffer<M>>)>,
    i: int,
    x: (usize, Vec<AlignedBuffer<M>>),
    c: usize,
)
    requires
        0 <= i < b.len(),
        b[i].0 == x.0,
        c != x.0,
    ensures
        bucket_of(b.update(i, x), c) == bucket_of(b, c),
    decreases b.len(),
{
    let u = b.update(i, x);
    if i == b.len() - 1 {
        assert(u.drop_last() =~= b.drop_last());
    } else {
        assert(u.drop_last() =~= b.drop_last().update(i, x));
        lemma_bucket_update(b.drop_last(), i, x, c);
    }
}

} // verus!
