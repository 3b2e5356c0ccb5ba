//! Cutting objects into stripes, at once or as the bytes arrive.
use crate::payload;
use crate::payload::{concat, payload, payloads};
use prost::bytes::Bytes;
use vstd::prelude::*;

verus! {

/// How many stripes of `size` bytes an object of `total` bytes takes.
pub open spec fn stripe_count(total: nat, size: nat) -> nat {
    (total + size - 1) as nat / size
}

/// One past the last byte of stripe `i`.
pub open spec fn stripe_end(total: nat, size: nat, i: int) -> int {
    if (i + 1) * size <= total {
        (i + 1) * size
    } else {
        total as int
    }
}

/// The bytes of stripe `i`.
pub open spec fn stripe_bytes(all: Seq<u8>, size: nat, i: int) -> Seq<u8> {
    all.subrange(i * size, stripe_end(all.len(), size, i))
}

/// All stripes of an object, in order.
pub open spec fn stripes_of(all: Seq<u8>, size: nat) -> Seq<Seq<u8>> {
    Seq::new(stripe_count(all.len(), size), |i: int| stripe_bytes(all, size, i))
}

/// A stripe lies inside the object and is not empty; all but the last are full.
pub proof fn lemma_stripe_bounds(total: nat, size: nat, i: int)
    requires
        size > 0,
        0 <= i < stripe_count(total, size),
    ensures
        0 <= i * size < stripe_end(total, size, i) <= total,
        stripe_end(total, size, i) - i * size <= size,
        i + 1 < stripe_count(total, size) ==> (i + 1) * size < total,
        i + 1 < stripe_count(total, size) ==> stripe_end(total, size, i) == (i + 1) * size,
        i + 1 == stripe_count(total, size) ==> stripe_end(total, size, i) == total,
{
    let n = stripe_count(total, size) as int;
    let m = total + size - 1;
    vstd::arithmetic::div_mod::lemma_fundamental_div_mod(m, size as int);
    vstd::arithmetic::div_mod::lemma_mod_bound(m, size as int);
    assert(size * n <= m < size * n + size);
    assert(n * size == size * n) by (nonlinear_arith);
    assert((i + 1) * size == i * size + size) by (nonlinear_arith);
    assert((i + 1) * size <= n * size) by (nonlinear_arith)
        requires
            i + 1 <= n,
            size > 0,
    ;
    assert(i * size >= 0) by (nonlinear_arith)
        requires
            i >= 0,
            size > 0,
    ;
    if i + 1 < n {
        assert((i + 2) * size <= n * size) by (nonlinear_arith)
            requires
                i + 2 <= n,
                size > 0,
        ;
        assert((i + 2) * size == (i + 1) * size + size) by (nonlinear_arith);
    }
}

/// The first stripes, joined, are the first bytes of the object.
pub proof fn lemma_stripes_prefix(all: Seq<u8>, size: nat, k: nat)
    requires
        size > 0,
        k <= stripe_count(all.len(), size),
    ensures
        concat(stripes_of(all, size).take(k as int)) == all.take(
            if k * size <= all.len() {
                (k * size) as int
            } else {
                all.len() as int
            },
        ),
    decreases k,
{
    let s = stripes_of(all, size);
    if k == 0 {
        assert(0 * size == 0) by (nonlinear_arith);
        assert(concat(s.take(0)) =~= all.take(0));
    } else {
        let j = (k - 1) as nat;
        lemma_stripes_prefix(all, size, j);
        lemma_stripe_bounds(all.len(), size, j as int);
        assert(s.take(k as int).drop_last() =~= s.take(j as int));
        assert(s.take(k as int).last() == stripe_bytes(all, size, j as int));
        assert(concat(s.take(k as int)) =~= all.take(
            if k * size <= all.len() {
                (k * size) as int
            } else {
                all.len() as int
            },
        ));
    }
}

/// The stripes of an object, joined in order, are the object.
pub proof fn stripes_make_up_the_object(all: Seq<u8>, size: nat)
    requires
        size > 0,
    ensures
        concat(stripes_of(all, size)) == all,
{
    let n = stripe_count(all.len(), size);
    let s = stripes_of(all, size);
    lemma_stripes_prefix(all, size, n);
    assert(s.take(n as int) =~= s);
    if n > 0 {
        lemma_stripe_bounds(all.len(), size, n - 1);
        assert(n * size >= all.len()) by {
            assert(((n - 1) + 1) * size == n * size);
        }
    } else {
        vstd::arithmetic::div_mod::lemma_fundamental_div_mod(
            all.len() + size - 1,
            size as int,
        );
        assert(size * 0 == 0) by (nonlinear_arith);
        vstd::arithmetic::div_mod::lemma_mod_bound(all.len() + size - 1, size as int);
        assert(all.len() == 0);
    }
    assert(all.take(all.len() as int) =~= all);
    assert(n * size <= all.len() ==> n * size == all.len());
}

/// Number of pieces of `size` bytes that `total` bytes take.
pub fn count_stripes(total: u64, size: u64) -> (n: u64)
    requires
        size > 0,
    ensures
        n == stripe_count(total as nat, size as nat),
{
    proof {
        let q = total as int / size as int;
        let r = total as int % size as int;
        vstd::arithmetic::div_mod::lemma_fundamental_div_mod(total as int, size as int);
        vstd::arithmetic::div_mod::lemma_mod_bound(total as int, size as int);
        let m = total as int + size as int - 1;
        if r == 0 {
            vstd::arithmetic::div_mod::lemma_fundamental_div_mod_converse(
                m,
                size as int,
                q,
                size - 1,
            );
        } else {
            assert(size as int * (q + 1) == size as int * q + size) by (nonlinear_arith);
            vstd::arithmetic::div_mod::lemma_fundamental_div_mod_converse(
                m,
                size as int,
                q + 1,
                r - 1,
            );
            assert(q < u64::MAX) by (nonlinear_arith)
                requires
                    size as int * q < total as int,
                    size >= 1,
                    total <= u64::MAX,
                    q >= 0,
            ;
        }
        assert(q >= 0) by (nonlinear_arith)
            requires
                q == total as int / size as int,
                size > 0,
        ;
    }
    let whole: u64 = total / size;
    if total % size == 0 {
        whole
    } else {
        whole + 1
    }
}

/// Cuts a buffer into consecutive pieces of `size` bytes; the last may be shorter. The pieces
/// share the buffer's memory.
pub fn split(data: &Bytes, size: u64) -> (r: Vec<Bytes>)
    requires
        size > 0,
    ensures
        payloads(r@) == stripes_of(payload(*data), size as nat),
{
    let total: usize = data.len();
    let n: u64 = count_stripes(total as u64, size);
    let mut out: Vec<Bytes> = Vec::new();
    let ghost all = payload(*data);
    let mut i: u64 = 0;
    let mut start: usize = 0;
    while i < n
        invariant
            i <= n,
            size > 0,
            all == payload(*data),
            total == all.len(),
            n == stripe_count(all.len(), size as nat),
            i < n ==> start == i * size,
            out.len() == i,
            forall|k: int|
                0 <= k < i ==> payload(#[trigger] out@[k]) == stripe_bytes(all, size as nat, k),
        decreases n - i,
    {
        proof {
            lemma_stripe_bounds(all.len(), size as nat, i as int);
        }
        let left: u64 = (total - start) as u64;
        let end: usize = if left <= size {
            total
        } else {
            start + size as usize
        };
        proof {
            assert((i + 1) * size == i * size + size) by (nonlinear_arith);
        }
        out.push(payload::slice(data, start, end));
        start = end;
        i = i + 1;
    }
    proof {
        assert(payloads(out@) =~= stripes_of(all, size as nat));
    }
    out
}

/// A stripe that is ready to be written: its number, its place in the object and its bytes, in
/// one or more segments.
pub struct Stripe {
    pub index: usize,
    pub offset: u64,
    pub segments: Vec<Bytes>,
}

impl Stripe {
    /// The bytes of the stripe.
    pub open spec fn bytes(self) -> Seq<u8> {
        concat(payloads(self.segments@))
    }

    /// This is stripe `i` of the object.
    pub open spec fn is_stripe(self, all: Seq<u8>, size: nat, i: int) -> bool {
        self.index == i && self.offset == i * size && self.bytes() == stripe_bytes(all, size, i)
    }
}

/// Collects the bytes of an object as they arrive and gives out each stripe once it is full.
pub struct StripeAssembler {
    size: u64,
    segments: Vec<Bytes>,
    filled: u64,
    next: usize,
    total: usize,
    received: Ghost<Seq<u8>>,
}

impl StripeAssembler {
    /// All bytes received so far.
    pub closed spec fn received(&self) -> Seq<u8> {
        self.received@
    }

    /// The stripe size.
    pub closed spec fn size(&self) -> nat {
        self.size as nat
    }

    /// The number of stripes given out so far.
    pub closed spec fn given(&self) -> nat {
        self.next as nat
    }

    /// The bytes held back are those after the last stripe given out; they are less than a
    /// stripe.
    pub closed spec fn wf(&self) -> bool {
        &&& self.size > 0
        &&& self.total == self.received@.len()
        &&& self.filled == self.received@.len() - self.cut()
        &&& concat(payloads(self.segments@)) == self.received@.skip(self.cut())
        &&& (self.segments@.len() == 0) == (self.filled == 0)
    }

    /// How far into the received bytes the stripes given out reach.
    closed spec fn cut(&self) -> int {
        if self.next * self.size <= self.received@.len() {
            self.next * self.size
        } else {
            self.received@.len() as int
        }
    }

    /// Every full stripe received was given out, and nothing more: bytes can still arrive.
    pub closed spec fn settled(&self) -> bool {
        self.filled < self.size && self.next * self.size <= self.received@.len()
    }

    /// An assembler for stripes of `size` bytes that has received nothing.
    pub fn new(size: u64) -> (r: StripeAssembler)
        requires
            size > 0,
        ensures
            r.wf(),
            r.settled(),
            r.received() == Seq::<u8>::empty(),
            r.size() == size,
            r.given() == 0,
    {
        let r = StripeAssembler {
            size,
            segments: Vec::new(),
            filled: 0,
            next: 0,
            total: 0,
            received: Ghost(Seq::empty()),
        };
        proof {
            assert(0 * size == 0) by (nonlinear_arith);
            assert(payloads(r.segments@) =~= Seq::<Seq<u8>>::empty());
            assert(r.received@.skip(0) =~= Seq::<u8>::empty());
        }
        r
    }

    /// The number of bytes received so far.
    pub fn received_total(&self) -> (n: usize)
        requires
            self.wf(),
        ensures
            n == self.received().len(),
    {
        self.total
    }

    /// The stripe size.
    pub fn stripe_size(&self) -> (n: u64)
        ensures
            n == self.size(),
    {
        self.size
    }

    /// Takes in more bytes and gives out the stripes that they complete.
    pub fn feed(&mut self, data: Bytes) -> (r: Vec<Stripe>)
        requires
            old(self).wf(),
            old(self).settled(),
            old(self).received().len() + payload(data).len() <= usize::MAX,
        ensures
            final(self).wf(),
            final(self).settled(),
            final(self).size() == old(self).size(),
            final(self).received() == old(self).received() + payload(data),
            final(self).given() == final(self).received().len() / old(self).size(),
            r@.len() == final(self).given() - old(self).given(),
            forall|k: int|
                0 <= k < r@.len() ==> (#[trigger] r@[k]).is_stripe(
                    final(self).received(),
                    old(self).size(),
                    old(self).given() + k,
                ),
    {
        let mut out: Vec<Stripe> = Vec::new();
        let mut data = data;
        let ghost before = self.received@;
        let ghost whole = self.received@ + payload(data);
        let ghost given0 = self.next as int;
        self.total = self.total + data.len();
        self.received = Ghost(whole);
        let ghost done = before.len();
        while data.len() > 0
            invariant
                self.size == old(self).size,
                self.size > 0,
                self.received@ == whole,
                self.total == whole.len(),
                whole.len() <= usize::MAX,
                before.len() <= done <= whole.len(),
                payload(data) == whole.skip(done as int),
                self.next * self.size <= done,
                self.filled == done - self.next * self.size,
                self.filled < self.size,
                concat(payloads(self.segments@)) == whole.subrange(
                    self.next * self.size,
                    done as int,
                ),
                (self.segments@.len() == 0) == (self.filled == 0),
                out@.len() == self.next - given0,
                given0 >= 0,
                given0 == old(self).next,
                forall|k: int|
                    0 <= k < out@.len() ==> (#[trigger] out@[k]).is_stripe(
                        whole,
                        self.size as nat,
                        given0 + k,
                    ),
            decreases payload(data).len(),
        {
            let need: u64 = self.size - self.filled;
            let ghost segs0 = self.segments@;
            let ghost from = self.next * self.size;
            if (data.len() as u64) < need {
                let ghost d = payload(data);
                let n: u64 = data.len() as u64;
                self.filled = self.filled + n;
                self.segments.push(data);
                proof {
                    lemma_push_payload(segs0, data);
                    assert(self.segments@ =~= segs0.push(data));
                    assert(concat(payloads(self.segments@)) =~= whole.subrange(
                        from,
                        whole.len() as int,
                    ));
                    done = whole.len();
                }
                data = Bytes::new();
                proof {
                    assert(payload(data) =~= whole.skip(done as int));
                }
            } else {
                let ghost d = payload(data);
                let head = data.split_to(need as usize);
                self.segments.push(head);
                proof {
                    lemma_push_payload(segs0, head);
                    assert(self.segments@ =~= segs0.push(head));
                    assert((self.next + 1) * self.size == self.next * self.size + self.size)
                        by (nonlinear_arith);
                    assert(concat(payloads(self.segments@)) =~= stripe_bytes(
                        whole,
                        self.size as nat,
                        self.next as int,
                    ));
                    done = (done + need) as nat;
                    assert(payload(data) =~= whole.skip(done as int));
                    assert(self.next <= from) by (nonlinear_arith)
                        requires
                            from == self.next * self.size,
                            self.size >= 1,
                    ;
                }
                let mut segments: Vec<Bytes> = Vec::new();
                std::mem::swap(&mut segments, &mut self.segments);
                proof {
                    assert(payloads(self.segments@) =~= Seq::<Seq<u8>>::empty());
                    assert(from <= whole.len());
                }
                let offset: u64 = self.stripe_offset();
                out.push(Stripe { index: self.next, offset, segments });
                self.filled = 0;
                self.next = self.next + 1;
                proof {
                    assert(whole.subrange(done as int, done as int) =~= Seq::<u8>::empty());
                }
            }
        }
        proof {
            assert(done == whole.len());
            assert(whole.subrange(self.next * self.size, done as int) =~= whole.skip(
                self.next * self.size,
            ));
            assert(self.size * self.next == self.next * self.size) by (nonlinear_arith);
            vstd::arithmetic::div_mod::lemma_fundamental_div_mod_converse(
                whole.len() as int,
                self.size as int,
                self.next as int,
                self.filled as int,
            );
        }
        out
    }

    fn stripe_offset(&self) -> (r: u64)
        requires
            self.next * self.size <= u64::MAX,
        ensures
            r == self.next * self.size,
    {
        self.next as u64 * self.size
    }

    /// Gives out what is left as the last, shorter stripe.
    pub fn flush(&mut self) -> (r: Option<Stripe>)
        requires
            old(self).wf(),
            old(self).settled(),
        ensures
            final(self).wf(),
            final(self).size() == old(self).size(),
            final(self).received() == old(self).received(),
            final(self).given() == stripe_count(old(self).received().len(), old(self).size()),
            match r {
                Some(s) => final(self).given() == old(self).given() + 1 && s.is_stripe(
                    old(self).received(),
                    old(self).size(),
                    old(self).given() as int,
                ),
                None => final(self).given() == old(self).given(),
            },
    {
        proof {
            assert(self.size * self.next == self.next * self.size) by (nonlinear_arith);
            vstd::arithmetic::div_mod::lemma_fundamental_div_mod_converse(
                self.received@.len() as int,
                self.size as int,
                self.next as int,
                self.filled as int,
            );
            assembling_equals_splitting(self.received@, self.size as nat, self.next as nat);
        }
        if self.segments.len() == 0 {
            return None;
        }
        proof {
            assert((self.next + 1) * self.size == self.next * self.size + self.size)
                by (nonlinear_arith);
            assert(stripe_bytes(self.received@, self.size as nat, self.next as int)
                =~= self.received@.skip(self.next * self.size));
            assert(self.next <= self.next * self.size) by (nonlinear_arith)
                requires
                    self.size >= 1,
            ;
        }
        let mut segments: Vec<Bytes> = Vec::new();
        std::mem::swap(&mut segments, &mut self.segments);
        let index: usize = self.next;
        let offset: u64 = self.stripe_offset();
        self.filled = 0;
        self.next = index + 1;
        proof {
            assert(payloads(self.segments@) =~= Seq::<Seq<u8>>::empty());
            assert(self.received@.skip(self.received@.len() as int) =~= Seq::<u8>::empty());
        }
        Some(Stripe { index, offset, segments })
    }
}

proof fn lemma_push_payload(segs: Seq<Bytes>, b: Bytes)
    ensures
        concat(payloads(segs.push(b))) == concat(payloads(segs)) + payload(b),
{
    assert(payloads(segs.push(b)).drop_last() =~= payloads(segs));
}

/// The stripes that the assembler gives out for bytes that arrive in pieces are those that the
/// same bytes are cut into at once: full ones in order, then what is left, if anything is.
pub proof fn assembling_equals_splitting(all: Seq<u8>, size: nat, given: nat)
    requires
        size > 0,
        given == all.len() / size,
    ensures
        given * size == all.len() ==> stripe_count(all.len(), size) == given,
        given * size < all.len() ==> stripe_count(all.len(), size) == given + 1,
        given * size <= all.len(),
{
    let r = all.len() as int % size as int;
    vstd::arithmetic::div_mod::lemma_fundamental_div_mod(all.len() as int, size as int);
    vstd::arithmetic::div_mod::lemma_mod_bound(all.len() as int, size as int);
    assert(size * given == given * size) by (nonlinear_arith);
    let m = all.len() + size - 1;
    if r == 0 {
        vstd::arithmetic::div_mod::lemma_fundamental_div_mod_converse(
            m,
            size as int,
            given as int,
            size - 1,
        );
    } else {
        assert((given + 1) * size == given * size + size) by (nonlinear_arith);
        vstd::arithmetic::div_mod::lemma_fundamental_div_mod_converse(
            m,
            size as int,
            given as int + 1,
            r - 1,
        );
    }
}

} // verus!
