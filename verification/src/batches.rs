//! A batch on the memory tier is its calls one after another.
use crate::key;
use crate::key::{KeyView, ObjectKey};
use crate::memory_tier::{
    after_fetches, after_puts, after_reads, batch_answer, batch_bytes, fetched_bytes, found_bytes,
    handed_on, slot, BatchLookup, Fetched, TierView,
};
use crate::metadata::BlockMeta;
use crate::payload::payload;
use crate::tier_history::{after_call, after_calls, TierCall};
use prost::bytes::Bytes;
use vstd::prelude::*;

verus! {

/// Two keys never share a place in the tier.
pub proof fn keys_have_places_of_their_own(a: KeyView, b: KeyView)
    ensures
        slot(a) == slot(b) <==> a == b,
{
    if slot(a) == slot(b) {
        key::canonical_is_injective(a, b);
    }
}

/// The calls that a batch of reads stands for.
pub open spec fn reads(keys: Seq<ObjectKey>, n: nat) -> Seq<TierCall> {
    Seq::new(n, |i: int| TierCall::Get { k: slot(keys[i]@) })
}

/// A batch of reads leaves the tier as the reads one after another do.
pub proof fn batch_of_reads_is_its_reads(t: TierView, keys: Seq<ObjectKey>, n: nat)
    requires
        n <= keys.len(),
    ensures
        after_reads(t, keys, n) == after_calls(t, reads(keys, n)),
    decreases n,
{
    if n > 0 {
        let m = (n - 1) as nat;
        batch_of_reads_is_its_reads(t, keys, m);
        assert(reads(keys, n).drop_last() =~= reads(keys, m));
        assert(reads(keys, n).last() == TierCall::Get { k: slot(keys[n - 1]@) });
    }
}

/// The calls that the accepted objects of a batch of writes stand for, in their order.
pub open spec fn accepted_puts(
    items: Seq<(ObjectKey, Bytes, BlockMeta)>,
    accepted: Seq<bool>,
) -> Seq<TierCall>
    decreases items.len(),
{
    if items.len() == 0 {
        Seq::empty()
    } else {
        let rest = accepted_puts(items.skip(1), accepted.skip(1));
        if accepted.len() > 0 && accepted[0] {
            let x = items[0];
            seq![TierCall::Put { k: slot(x.0@), data: payload(x.1), meta: x.2@ }] + rest
        } else {
            rest
        }
    }
}

proof fn lemma_calls_append(t: TierView, a: Seq<TierCall>, b: Seq<TierCall>)
    ensures
        after_calls(t, a + b) == after_calls(after_calls(t, a), b),
    decreases b.len(),
{
    if b.len() == 0 {
        assert(a + b =~= a);
    } else {
        lemma_calls_append(t, a, b.drop_last());
        assert((a + b).drop_last() =~= a + b.drop_last());
        assert((a + b).last() == b.last());
    }
}

proof fn lemma_puts_from_second(
    t: TierView,
    items: Seq<(ObjectKey, Bytes, BlockMeta)>,
    accepted: Seq<bool>,
    n: nat,
)
    requires
        0 < n <= items.len(),
        accepted.len() > 0,
    ensures
        after_puts(t, items, accepted, n) == after_puts(
            after_puts(t, items, accepted, 1),
            items.skip(1),
            accepted.skip(1),
            (n - 1) as nat,
        ),
    decreases n,
{
    if n > 1 {
        lemma_puts_from_second(t, items, accepted, (n - 1) as nat);
        assert(items.skip(1)[n - 2] == items[n - 1]);
        if n - 2 < accepted.skip(1).len() {
            assert(accepted.skip(1)[n - 2] == accepted[n - 1]);
        }
    }
}

/// A batch of writes leaves the tier as the writes of its accepted objects one after another do;
/// an object that storage refused leaves no trace.
pub proof fn batch_of_writes_is_its_accepted_writes(
    t: TierView,
    items: Seq<(ObjectKey, Bytes, BlockMeta)>,
    accepted: Seq<bool>,
)
    requires
        accepted.len() == items.len(),
    ensures
        after_puts(t, items, accepted, items.len()) == after_calls(
            t,
            accepted_puts(items, accepted),
        ),
    decreases items.len(),
{
    if items.len() > 0 {
        lemma_puts_from_second(t, items, accepted, items.len());
        let u = after_puts(t, items, accepted, 1);
        assert(after_puts(t, items, accepted, 0) == t);
        let rest = accepted_puts(items.skip(1), accepted.skip(1));
        batch_of_writes_is_its_accepted_writes(u, items.skip(1), accepted.skip(1));
        if accepted[0] {
            let x = items[0];
            let c = TierCall::Put { k: slot(x.0@), data: payload(x.1), meta: x.2@ };
            lemma_calls_append(t, seq![c], rest);
            assert(seq![c].drop_last() =~= Seq::<TierCall>::empty());
            assert(seq![c].last() == c);
            assert(after_calls(t, seq![c].drop_last()) == t);
            assert(after_calls(t, seq![c]) == after_call(t, c));
            assert(after_calls(t, seq![c]) == u);
        }
    }
}

/// What storage found for one missing key, as a call on the tier; where it found nothing or
/// failed, the tier is not called.
pub open spec fn found_calls(
    keys: Seq<ObjectKey>,
    misses: Seq<usize>,
    fetched: Seq<Fetched>,
    n: nat,
) -> Seq<TierCall>
    decreases n,
{
    if n == 0 {
        Seq::empty()
    } else {
        let before = found_calls(keys, misses, fetched, (n - 1) as nat);
        match fetched[n - 1] {
            Ok(Some(x)) => before.push(
                TierCall::Fetched {
                    k: slot(keys[misses[n - 1] as int]@),
                    data: payload(x.0),
                    meta: x.1@,
                },
            ),
            _ => before,
        }
    }
}

/// What storage gives for a batch is taken in as it would be key by key; a key that storage does
/// not have, or fails on, changes nothing.
pub proof fn batch_of_fetches_is_its_fetches(
    t: TierView,
    keys: Seq<ObjectKey>,
    misses: Seq<usize>,
    fetched: Seq<Fetched>,
    n: nat,
)
    requires
        n <= misses.len(),
        n <= fetched.len(),
    ensures
        after_fetches(t, keys, misses, fetched, n) == after_calls(
            t,
            found_calls(keys, misses, fetched, n),
        ),
    decreases n,
{
    if n > 0 {
        let before = found_calls(keys, misses, fetched, (n - 1) as nat);
        batch_of_fetches_is_its_fetches(t, keys, misses, fetched, (n - 1) as nat);
        let all = found_calls(keys, misses, fetched, n);
        match fetched[n - 1] {
            Ok(Some(x)) => {
                assert(all.drop_last() =~= before);
                assert(all.last() == TierCall::Fetched {
                    k: slot(keys[misses[n - 1] as int]@),
                    data: payload(x.0),
                    meta: x.1@,
                });
            },
            _ => {},
        }
    }
}

/// An answer of storage is passed on as it is: a failure with its error, nothing as nothing, and
/// an object with its bytes and its record.
pub proof fn answers_of_storage_are_passed_on(r: Fetched, f: Fetched)
    requires
        handed_on(r, f),
    ensures
        r is Err <==> f is Err,
        r is Err ==> r->Err_0 == f->Err_0,
        r is Ok && r->Ok_0 is None <==> f is Ok && f->Ok_0 is None,
        r is Ok && r->Ok_0 is Some ==> payload((r->Ok_0->0).0) == payload((f->Ok_0->0).0)
            && (r->Ok_0->0).1@ == (f->Ok_0->0).1@,
{
}

/// Each key of a batch gets its own answer: what the tier held, or else what storage gave for
/// that key.
pub proof fn each_key_gets_its_own_answer(
    r: Fetched,
    found: BatchLookup,
    fetched: Seq<Fetched>,
    i: int,
    j: int,
)
    requires
        found.wf(),
        batch_answer(r, found, fetched, i),
        0 <= i < found.results@.len(),
        0 <= j < found.misses@.len(),
        found.misses@[j] == i,
        j < fetched.len(),
    ensures
        r is Err <==> fetched[j] is Err,
        r is Err ==> r->Err_0 == fetched[j]->Err_0,
        r is Ok && r->Ok_0 is None <==> fetched[j] is Ok && fetched[j]->Ok_0 is None,
        r is Ok && r->Ok_0 is Some ==> payload((r->Ok_0->0).0) == payload((fetched[j]->Ok_0->0).0)
            && (r->Ok_0->0).1@ == (fetched[j]->Ok_0->0).1@,
{
    assert(found.results@[found.misses@[j] as int] is None);
    let x = choose|x: int|
        0 <= x < found.misses@.len() && (#[trigger] found.misses@[x]) == i && (if x
            < fetched.len() {
            handed_on(r, fetched[x])
        } else {
            r matches Ok(None)
        });
    assert(x == j) by {
        if x < j {
            assert(found.misses@[x] < found.misses@[j]);
        }
        if j < x {
            assert(found.misses@[j] < found.misses@[x]);
        }
    }
    answers_of_storage_are_passed_on(r, fetched[j]);
}

/// A key that the tier held is answered from there, whatever storage gave for the others.
pub proof fn held_key_is_answered_from_the_tier(
    r: Fetched,
    found: BatchLookup,
    fetched: Seq<Fetched>,
    i: int,
)
    requires
        0 <= i < found.results@.len(),
        found.results@[i] is Some,
        batch_answer(r, found, fetched, i),
    ensures
        r is Ok && r->Ok_0 is Some,
        payload((r->Ok_0->0).0) == payload((found.results@[i]->0).0),
        (r->Ok_0->0).1@ == (found.results@[i]->0).1@,
{
}

/// The bytes of a batch are those of its parts together; what was not found has none.
pub proof fn bytes_of_a_batch_add_up(
    a: Seq<Fetched>,
    b: Seq<Fetched>,
    x: Seq<(ObjectKey, Bytes, BlockMeta)>,
    y: Seq<(ObjectKey, Bytes, BlockMeta)>,
)
    ensures
        fetched_bytes(a + b) == fetched_bytes(a) + fetched_bytes(b),
        batch_bytes(x + y) == batch_bytes(x) + batch_bytes(y),
        a.len() == 1 && a[0] is Err ==> fetched_bytes(a) == 0,
        a.len() == 1 && a[0] is Ok && a[0]->Ok_0 is None ==> fetched_bytes(a) == 0,
        a.len() == 1 && a[0] is Ok && a[0]->Ok_0 is Some ==> fetched_bytes(a) == payload(
            (a[0]->Ok_0->0).0,
        ).len(),
        x.len() == 1 ==> batch_bytes(x) == payload(x[0].1).len(),
    decreases b.len() + y.len(),
{
    if b.len() > 0 {
        bytes_of_a_batch_add_up(a, b.drop_last(), x, y);
        assert((a + b).drop_last() =~= a + b.drop_last());
        assert((a + b).last() == b.last());
    } else {
        assert(a + b =~= a);
        if y.len() > 0 {
            bytes_of_a_batch_add_up(a, b, x, y.drop_last());
        }
    }
    if y.len() > 0 {
        if b.len() > 0 {
            bytes_of_a_batch_add_up(a, b, x, y.drop_last());
        }
        assert((x + y).drop_last() =~= x + y.drop_last());
        assert((x + y).last() == y.last());
    } else {
        assert(x + y =~= x);
    }
    if a.len() == 1 {
        assert(a.drop_last().len() == 0);
        assert(fetched_bytes(a.drop_last()) == 0);
        assert(fetched_bytes(a) == found_bytes(a[0]));
    }
    if x.len() == 1 {
        assert(x.drop_last().len() == 0);
        assert(batch_bytes(x.drop_last()) == 0);
    }
}

/// Objects in the slab have at least the room that other objects have, and more where the slab
/// is larger.
pub proof fn slab_never_narrows_the_room(t: TierView)
    ensures
        t.slab_budget() >= t.capacity,
        t.slab_capacity is None ==> t.slab_budget() == t.capacity,
        t.slab_capacity is Some ==> t.slab_budget() >= t.slab_capacity->0,
        t.slab_capacity is Some ==> t.slab_budget() == t.capacity || t.slab_budget()
            == t.slab_capacity->0,
{
}

} // verus!
