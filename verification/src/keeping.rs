//! The in-memory tier keeps as much as fits: nothing is dropped needlessly, and what is dropped is
//! what was used least recently.
use crate::memory_tier::{
    evict, evict_freeing, lemma_invalidated, multi_entry, single_entry, TierView, ENTRY_LIMIT,
};
use crate::metadata::MetaView;
use crate::payload::concat;
use crate::recency;
use crate::recency::{held, lookup, size_of_entry, without, EntryView, Recency};
use vstd::prelude::*;

verus! {

proof fn lemma_held_append(a: Recency, b: Recency)
    ensures
        held(a + b) == held(a) + held(b),
    decreases b.len(),
{
    if b.len() == 0 {
        assert(a + b =~= a);
    } else {
        lemma_held_append(a, b.drop_last());
        assert((a + b).drop_last() =~= a + b.drop_last());
    }
}

proof fn lemma_held_first(s: Recency, n: int)
    requires
        1 <= n <= s.len(),
    ensures
        held(s.take(n)) == s[0].1.total + held(s.skip(1).take(n - 1)),
{
    let one = seq![s[0]];
    assert(s.take(n) =~= one + s.skip(1).take(n - 1));
    lemma_held_append(one, s.skip(1).take(n - 1));
    reveal_with_fuel(held, 2);
    assert(one.drop_last() =~= Seq::<(Seq<char>, EntryView)>::empty());
}

proof fn lemma_evict_least(s: Recency, current: int, size: nat, budget: nat)
    ensures
        ({
            let v = evict(s, current, size, budget);
            &&& v.2 <= s.len()
            &&& v.0 == s.skip(v.2 as int)
            &&& v.1 == current - held(s.take(v.2 as int))
            &&& v.2 > 0 ==> current - held(s.take(v.2 - 1)) + size > budget
            &&& v.2 < s.len() ==> v.1 + size <= budget
        }),
    decreases s.len(),
{
    let v = evict(s, current, size, budget);
    if s.len() > 0 && current + size > budget {
        lemma_evict_least(s.skip(1), current - s[0].1.total, size, budget);
        lemma_held_first(s, v.2 as int);
        assert(v.0 =~= s.skip(v.2 as int));
        if v.2 > 1 {
            lemma_held_first(s, v.2 - 1);
        } else {
            assert(held(s.take(0)) == 0);
        }
    } else {
        assert(s =~= s.skip(0));
        assert(held(s.take(0)) == 0);
    }
}

proof fn lemma_evict_freeing_least(s: Recency, current: int, need: int)
    ensures
        ({
            let v = evict_freeing(s, current, need);
            &&& v.2 <= s.len()
            &&& v.0 == s.skip(v.2 as int)
            &&& v.1 == current - held(s.take(v.2 as int))
            &&& v.2 > 0 ==> held(s.take(v.2 - 1)) < need
            &&& v.2 < s.len() ==> held(s.take(v.2 as int)) >= need
        }),
    decreases s.len(),
{
    let v = evict_freeing(s, current, need);
    if s.len() > 0 && need > 0 {
        lemma_evict_freeing_least(s.skip(1), current - s[0].1.total, need - s[0].1.total);
        lemma_held_first(s, v.2 as int);
        assert(v.0 =~= s.skip(v.2 as int));
        if v.2 > 1 {
            lemma_held_first(s, v.2 - 1);
        } else {
            assert(held(s.take(0)) == 0);
        }
    } else {
        assert(s =~= s.skip(0));
        assert(held(s.take(0)) == 0);
    }
}

proof fn lemma_without_absent(s: Recency, k: Seq<char>)
    requires
        lookup(s, k) is None,
    ensures
        without(s, k) == s,
    decreases s.len(),
{
    if s.len() > 0 {
        lemma_without_absent(s.drop_last(), k);
        assert(without(s, k) =~= s);
    }
}

/// The bytes that count without those of one object.
pub open spec fn other_bytes(t: TierView, k: Seq<char>) -> int {
    t.current - size_of_entry(lookup(t.singles, k)) - size_of_entry(lookup(t.multis, k))
}

/// A cache that held `others` has taken in an entry and has dropped the `n` entries that were
/// used least recently: just as many as must go until the entry fits the budget, so that keeping
/// the last one dropped would exceed it. Only a cache that is full of entries gives up one more.
pub open spec fn dropped_least(
    others: Recency,
    after: Recency,
    k: Seq<char>,
    e: EntryView,
    bytes: int,
    budget: nat,
    n: nat,
) -> bool {
    &&& n <= others.len()
    &&& others.len() < ENTRY_LIMIT ==> after == others.skip(n as int).push((k, e))
    &&& n == 0 && others.len() == ENTRY_LIMIT ==> after == others.skip(1).push((k, e))
    &&& n > 0 ==> after == others.skip(n as int).push((k, e))
    &&& n > 0 ==> bytes - held(others.take(n - 1)) + e.total > budget
    &&& n < others.len() ==> bytes - held(others.take(n as int)) + e.total <= budget
}

/// What a call leaves alone: the capacity and the counts of hits and misses.
pub open spec fn same_counts(t: TierView, r: TierView) -> bool {
    r.capacity == t.capacity && r.hits == t.hits && r.misses == t.misses && r.slab_capacity
        == t.slab_capacity
}

/// The number of evictions has grown by so many.
pub open spec fn evicted(t: TierView, r: TierView, n: nat) -> bool {
    t.evictions + n <= u64::MAX ==> r.evictions == t.evictions + n
}

/// An object that is taken in as one buffer, by a write or after a read of storage, drops no more
/// than it must of the objects that are held as one buffer, and nothing of those in segments.
pub proof fn single_buffer_drops_least(t: TierView, k: Seq<char>, e: EntryView) -> (n: nat)
    requires
        t.wf(),
        e.total <= t.capacity,
    ensures
        ({
            let r = t.with_single(k, e);
            &&& dropped_least(
                without(t.singles, k),
                r.singles,
                k,
                e,
                other_bytes(t, k),
                t.capacity,
                n,
            )
            &&& r.multis == without(t.multis, k)
            &&& r.current == other_bytes(t, k) - held(without(t.singles, k).take(n as int))
                + e.total
            &&& same_counts(t, r)
            &&& evicted(t, r, n)
        }),
{
    let u = t.invalidated(k);
    lemma_invalidated(t, k);
    recency::lemma_without(t.singles, k);
    lemma_evict_least(u.singles, u.current, e.total, t.capacity);
    let v = evict(u.singles, u.current, e.total, t.capacity);
    crate::memory_tier::lemma_evict(u.singles, u.current, e.total, t.capacity);
    if lookup(v.0, k) is Some {
        assert(lookup(u.singles, k) == lookup(v.0, k));
    }
    assert(u.singles.skip(0) =~= u.singles);
    v.2
}

/// An object that is taken in in segments, under whatever budget, drops no more than it must of
/// the objects that are held in segments, and nothing of those held as one buffer.
pub proof fn segments_drop_least(t: TierView, k: Seq<char>, e: EntryView, budget: nat) -> (n: nat)
    requires
        t.wf(),
    ensures
        ({
            let r = t.forced_multi(k, e, budget);
            &&& dropped_least(
                without(t.multis, k),
                r.multis,
                k,
                e,
                other_bytes(t, k),
                budget,
                n,
            )
            &&& r.singles == without(t.singles, k)
            &&& r.current == other_bytes(t, k) - held(without(t.multis, k).take(n as int))
                + e.total
            &&& same_counts(t, r)
            &&& evicted(t, r, n)
        }),
{
    let u = t.invalidated(k);
    lemma_invalidated(t, k);
    recency::lemma_without(t.multis, k);
    lemma_evict_least(u.multis, u.current, e.total, budget);
    let v = evict(u.multis, u.current, e.total, budget);
    crate::memory_tier::lemma_evict(u.multis, u.current, e.total, budget);
    if lookup(v.0, k) is Some {
        assert(lookup(u.multis, k) == lookup(v.0, k));
    }
    assert(u.multis.skip(0) =~= u.multis);
    v.2
}

proof fn lemma_dropped_again(t: TierView, k: Seq<char>)
    requires
        t.wf(),
    ensures
        without(t.invalidated(k).singles, k) == without(t.singles, k),
        without(t.invalidated(k).multis, k) == without(t.multis, k),
        other_bytes(t.invalidated(k), k) == other_bytes(t, k),
{
    lemma_invalidated(t, k);
    lemma_without_absent(t.invalidated(k).singles, k);
    lemma_without_absent(t.invalidated(k).multis, k);
}

/// A write as one buffer drops no more than it must. An object that exceeds the whole budget is
/// not kept, and drops nothing but its own earlier version.
pub proof fn put_drops_least(t: TierView, k: Seq<char>, data: Seq<u8>, meta: MetaView) -> (n: nat)
    requires
        t.wf(),
    ensures
        ({
            let r = t.put(k, data, meta);
            &&& same_counts(t, r)
            &&& evicted(t, r, n)
            &&& r.multis == without(t.multis, k)
            &&& data.len() <= t.capacity ==> dropped_least(
                without(t.singles, k),
                r.singles,
                k,
                single_entry(data, meta),
                other_bytes(t, k),
                t.capacity,
                n,
            )
            &&& data.len() > t.capacity ==> n == 0 && r.singles == without(t.singles, k)
        }),
{
    lemma_invalidated(t, k);
    lemma_dropped_again(t, k);
    if data.len() <= t.capacity {
        single_buffer_drops_least(t.invalidated(k), k, single_entry(data, meta))
    } else {
        0
    }
}

/// A write in segments drops no more than it must. An object that exceeds the whole budget is
/// not kept, and drops nothing but its own earlier version.
pub proof fn put_chunks_drops_least(
    t: TierView,
    k: Seq<char>,
    segments: Seq<Seq<u8>>,
    meta: MetaView,
    slab: Option<u64>,
) -> (n: nat)
    requires
        t.wf(),
    ensures
        ({
            let r = t.put_chunks(k, segments, meta, slab);
            &&& same_counts(t, r)
            &&& evicted(t, r, n)
            &&& r.singles == without(t.singles, k)
            &&& concat(segments).len() <= t.capacity ==> dropped_least(
                without(t.multis, k),
                r.multis,
                k,
                multi_entry(segments, meta, slab),
                other_bytes(t, k),
                t.capacity,
                n,
            )
            &&& concat(segments).len() > t.capacity ==> n == 0 && r.multis == without(t.multis, k)
        }),
{
    lemma_invalidated(t, k);
    lemma_dropped_again(t, k);
    if concat(segments).len() <= t.capacity {
        segments_drop_least(
            t.invalidated(k),
            k,
            multi_entry(segments, meta, slab),
            t.capacity,
        )
    } else {
        0
    }
}

/// An object of so many bytes fits beside all others that are held: the bytes that count, without
/// the object's own earlier version, leave room for it in the budget, and neither cache is full
/// of entries.
pub open spec fn has_room(t: TierView, k: Seq<char>, len: nat) -> bool {
    other_bytes(t, k) + len <= t.capacity && t.singles.len() < ENTRY_LIMIT && t.multis.len()
        < ENTRY_LIMIT
}

/// Every object but one is held as it was, and nothing was evicted.
pub open spec fn all_others_kept(t: TierView, r: TierView, k: Seq<char>) -> bool {
    &&& forall|j: Seq<char>| j != k ==> #[trigger] lookup(r.singles, j) == lookup(t.singles, j)
    &&& forall|j: Seq<char>| j != k ==> #[trigger] lookup(r.multis, j) == lookup(t.multis, j)
    &&& r.evictions == t.evictions
}

proof fn lemma_kept_single(t: TierView, k: Seq<char>, e: EntryView)
    requires
        t.wf(),
        e.total <= t.capacity,
        t.singles.len() < ENTRY_LIMIT,
        other_bytes(t, k) + e.total <= t.capacity,
    ensures
        all_others_kept(t, t.with_single(k, e), k),
        lookup(t.with_single(k, e).singles, k) == Some(e),
{
    let n = single_buffer_drops_least(t, k, e);
    let others = without(t.singles, k);
    recency::lemma_without(t.singles, k);
    recency::lemma_without(t.multis, k);
    if n > 0 {
        assert(held(others.take(n - 1)) >= 0);
    }
    assert(n == 0);
    assert(others.skip(0) =~= others);
    recency::lemma_push(others, k, e);
}

proof fn lemma_kept_segments(t: TierView, k: Seq<char>, e: EntryView, budget: nat)
    requires
        t.wf(),
        t.multis.len() < ENTRY_LIMIT,
        other_bytes(t, k) + e.total <= budget,
    ensures
        all_others_kept(t, t.forced_multi(k, e, budget), k),
        lookup(t.forced_multi(k, e, budget).multis, k) == Some(e),
{
    let n = segments_drop_least(t, k, e, budget);
    let others = without(t.multis, k);
    recency::lemma_without(t.singles, k);
    recency::lemma_without(t.multis, k);
    assert(n == 0);
    assert(others.skip(0) =~= others);
    recency::lemma_push(others, k, e);
}

/// What fits drops nothing: where the bytes that count, without the object's own earlier
/// version, and the new object are together within the budget, every other object that was held
/// is still held after a write, and after a read that storage has answered.
pub proof fn what_fits_drops_nothing(
    t: TierView,
    k: Seq<char>,
    data: Seq<u8>,
    segments: Seq<Seq<u8>>,
    meta: MetaView,
    slab: Option<u64>,
)
    requires
        t.wf(),
        t.singles.len() < ENTRY_LIMIT,
        t.multis.len() < ENTRY_LIMIT,
    ensures
        other_bytes(t, k) + data.len() <= t.capacity ==> {
            let e = single_entry(data, meta);
            &&& all_others_kept(t, t.put(k, data, meta), k)
            &&& all_others_kept(t, t.with_single(k, e), k)
            &&& lookup(t.put(k, data, meta).singles, k) == Some(e)
            &&& lookup(t.with_single(k, e).singles, k) == Some(e)
        },
        other_bytes(t, k) + concat(segments).len() <= t.capacity ==> {
            let e = multi_entry(segments, meta, slab);
            &&& all_others_kept(t, t.put_chunks(k, segments, meta, slab), k)
            &&& all_others_kept(t, t.with_multi(k, e), k)
            &&& lookup(t.put_chunks(k, segments, meta, slab).multis, k) == Some(e)
            &&& lookup(t.with_multi(k, e).multis, k) == Some(e)
        },
        concat(segments).len() > 0 && other_bytes(t, k) + concat(segments).len()
            <= t.slab_budget() ==> {
            let e = multi_entry(segments, meta, slab);
            &&& all_others_kept(t, t.with_slab_object(k, e), k)
            &&& lookup(t.with_slab_object(k, e).multis, k) == Some(e)
        },
{
    lemma_invalidated(t, k);
    lemma_dropped_again(t, k);
    recency::lemma_without(t.singles, k);
    recency::lemma_without(t.multis, k);
    let u = t.invalidated(k);
    assert(u.current >= 0);
    if other_bytes(t, k) + data.len() <= t.capacity {
        lemma_kept_single(t, k, single_entry(data, meta));
        lemma_kept_single(u, k, single_entry(data, meta));
    }
    let e = multi_entry(segments, meta, slab);
    if other_bytes(t, k) + e.total <= t.capacity {
        lemma_kept_segments(t, k, e, t.capacity);
        lemma_kept_segments(u, k, e, t.capacity);
    }
    if e.total > 0 && other_bytes(t, k) + e.total <= t.slab_budget() {
        lemma_kept_segments(t, k, e, t.slab_budget());
    }
}

/// Making room in the slab drops the objects in segments that were used least recently, just as
/// many as free the bytes that are asked for, and nothing else.
pub proof fn making_room_drops_least(t: TierView, need: nat) -> (n: nat)
    ensures
        ({
            let v = evict_freeing(t.multis, t.current, need as int);
            &&& n <= t.multis.len()
            &&& v.0 == t.multis.skip(n as int)
            &&& v.2 == n
            &&& v.1 == t.current - held(t.multis.take(n as int))
            &&& n > 0 ==> held(t.multis.take(n - 1)) < need
            &&& n < t.multis.len() ==> held(t.multis.take(n as int)) >= need
        }),
{
    lemma_evict_freeing_least(t.multis, t.current, need as int);
    evict_freeing(t.multis, t.current, need as int).2
}

/// A read that is answered from the tier counts as one hit, makes its object the one used last,
/// and leaves the order of all others. One that is not answered counts as one miss, and one that
/// finds another version counts as a miss as well, though that version was used.
pub proof fn reads_are_counted_and_freshen(t: TierView, k: Seq<char>)
    requires
        t.wf(),
    ensures
        t.misses < u64::MAX ==> t.missed().misses == t.misses + 1,
        t.missed() == (TierView { misses: t.missed().misses, ..t }),
        lookup(t.singles, k) matches Some(e) ==> {
            let r = t.hit_single(k);
            &&& t.hits < u64::MAX ==> r.hits == t.hits + 1
            &&& r.misses == t.misses
            &&& r.evictions == t.evictions
            &&& r.current == t.current
            &&& r.multis == t.multis
            &&& r.singles.len() == t.singles.len()
            &&& r.singles.last() == (k, e)
            &&& r.singles.drop_last() == without(t.singles, k)
            &&& t.stale_single(k).singles == r.singles
            &&& t.stale_single(k).multis == t.multis
            &&& t.stale_single(k).hits == t.hits
            &&& t.misses < u64::MAX ==> t.stale_single(k).misses == t.misses + 1
        },
        lookup(t.multis, k) matches Some(e) ==> {
            let r = t.hit_multi(k);
            &&& t.hits < u64::MAX ==> r.hits == t.hits + 1
            &&& r.misses == t.misses
            &&& r.evictions == t.evictions
            &&& r.current == t.current
            &&& r.singles == t.singles
            &&& r.multis.len() == t.multis.len()
            &&& r.multis.last() == (k, e)
            &&& r.multis.drop_last() == without(t.multis, k)
            &&& t.stale_multi(k).multis == r.multis
            &&& t.stale_multi(k).singles == t.singles
            &&& t.stale_multi(k).hits == t.hits
            &&& t.misses < u64::MAX ==> t.stale_multi(k).misses == t.misses + 1
        },
{
    recency::lemma_without(t.singles, k);
    recency::lemma_without(t.multis, k);
    if lookup(t.singles, k) is Some {
        assert(t.hit_single(k).singles.drop_last() =~= without(t.singles, k));
    }
    if lookup(t.multis, k) is Some {
        assert(t.hit_multi(k).multis.drop_last() =~= without(t.multis, k));
    }
}

/// What is larger than the tier is not taken in, and changes nothing.
pub proof fn what_is_too_large_is_not_kept(t: TierView, k: Seq<char>, e: EntryView)
    requires
        e.total > t.capacity,
    ensures
        t.with_single(k, e) == t,
        t.with_multi(k, e) == t,
{
}

/// An object in the slab drops no more than it must to stay within the larger of the tier and the
/// slab; an empty one is not taken in, and where there is no room to speak of nothing is dropped
/// for it.
pub proof fn slab_object_drops_least(t: TierView, k: Seq<char>, e: EntryView) -> (n: nat)
    requires
        t.wf(),
        t.multis.len() < ENTRY_LIMIT,
    ensures
        ({
            let r = t.with_slab_object(k, e);
            let room = if t.slab_capacity is Some && t.slab_capacity->0 > t.capacity {
                t.slab_capacity->0 as nat
            } else {
                t.capacity
            };
            &&& e.total == 0 ==> r == t
            &&& e.total > 0 ==> same_counts(t, r) && evicted(t, r, n)
            &&& e.total > 0 ==> r.singles == without(t.singles, k)
            &&& e.total > 0 && room > 0 ==> dropped_least(
                without(t.multis, k),
                r.multis,
                k,
                e,
                other_bytes(t, k),
                room,
                n,
            )
            &&& e.total > 0 && room == 0 ==> n == 0 && r.multis == without(t.multis, k).push(
                (k, e),
            )
        }),
{
    recency::lemma_without(t.multis, k);
    lemma_invalidated(t, k);
    if e.total > 0 && t.slab_budget() > 0 {
        segments_drop_least(t, k, e, t.slab_budget())
    } else {
        0
    }
}

} // verus!
