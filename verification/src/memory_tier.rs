//! The in-memory tier: recently used objects, as one buffer or in segments, under one budget of
//! bytes. Storage lies behind it: what is not found here is fetched by the caller and handed in.
use crate::config::Config;
use crate::error::KVError;
use crate::handlers::{meta_identity_matches, same_version};
use crate::keeping;
use crate::keeping::{all_others_kept, has_room};
use crate::key::{canonical, KeyView, ObjectKey};
use crate::metadata::{BlockMeta, MetaView};
use crate::payload;
use crate::payload::{concat, payload, payloads};
use crate::recency;
use crate::recency::{
    after_put, held, lookup, lru_entries, lru_limit, size_of_entry, without, CacheEntry, EntryView,
    Recency,
};
use lru::LruCache;
use prost::bytes::Bytes;
use vstd::prelude::*;

verus! {

/// The most entries that either cache holds.
pub const ENTRY_LIMIT: usize = 1000000;

/// Objects held in memory and the counters that go with them.
pub struct MemoryTier {
    capacity_bytes: usize,
    cache: LruCache<String, CacheEntry>,
    chunks_cache: LruCache<String, CacheEntry>,
    current_size: u64,
    hits: u64,
    misses: u64,
    evictions: u64,
    slab_capacity: Option<u64>,
}

/// Mathematical form of [`MemoryTier`].
#[verifier::ext_equal]
pub struct TierView {
    /// Budget in bytes.
    pub capacity: nat,
    /// Objects held as one buffer.
    pub singles: Recency,
    /// Objects held in segments.
    pub multis: Recency,
    /// Bytes that count against the budget.
    pub current: int,
    pub hits: u64,
    pub misses: u64,
    pub evictions: u64,
    /// Size of the slab, where there is one.
    pub slab_capacity: Option<u64>,
}

/// A counter that wraps around.
pub open spec fn bump(x: u64, n: nat) -> u64 {
    ((x + n) % 0x1_0000_0000_0000_0000) as u64
}

fn increment(x: u64) -> (r: u64)
    ensures
        r == bump(x, 1),
{
    if x == u64::MAX {
        0
    } else {
        x + 1
    }
}

/// What is left once entries were dropped, least recently used first, until `size` more bytes
/// fit the budget or nothing is left; the bytes that then count; how many were dropped.
pub open spec fn evict(s: Recency, current: int, size: nat, budget: nat) -> (Recency, int, nat)
    decreases s.len(),
{
    if s.len() > 0 && current + size > budget {
        let rest = evict(s.skip(1), current - s[0].1.total, size, budget);
        (rest.0, rest.1, rest.2 + 1)
    } else {
        (s, current, 0)
    }
}

/// What is left once entries were dropped, least recently used first, until at least `need`
/// bytes were freed or nothing is left; the bytes that then count; how many were dropped.
pub open spec fn evict_freeing(s: Recency, current: int, need: int) -> (Recency, int, nat)
    decreases s.len(),
{
    if s.len() > 0 && need > 0 {
        let rest = evict_freeing(s.skip(1), current - s[0].1.total, need - s[0].1.total);
        (rest.0, rest.1, rest.2 + 1)
    } else {
        (s, current, 0)
    }
}

/// An entry of one buffer.
pub open spec fn single_entry(data: Seq<u8>, meta: MetaView) -> EntryView {
    EntryView { segments: seq![data], meta, total: data.len(), slab: None }
}

/// An entry in segments.
pub open spec fn multi_entry(segments: Seq<Seq<u8>>, meta: MetaView, slab: Option<u64>) -> EntryView {
    EntryView { segments, meta, total: concat(segments).len(), slab }
}

impl TierView {
    /// Both representations of an object dropped.
    pub open spec fn invalidated(self, k: Seq<char>) -> TierView {
        TierView {
            singles: without(self.singles, k),
            multis: without(self.multis, k),
            current: self.current - size_of_entry(lookup(self.singles, k)) - size_of_entry(
                lookup(self.multis, k),
            ),
            ..self
        }
    }

    /// An object put in as one buffer. One that exceeds the whole budget changes nothing.
    pub open spec fn with_single(self, k: Seq<char>, e: EntryView) -> TierView {
        if e.total > self.capacity {
            self
        } else {
            let t = self.invalidated(k);
            let v = evict(t.singles, t.current, e.total, self.capacity);
            TierView {
                singles: after_put(v.0, k, e, ENTRY_LIMIT as nat),
                current: v.1 + e.total,
                evictions: bump(self.evictions, v.2),
                ..t
            }
        }
    }

    /// An object put in in segments. One that exceeds the whole budget changes nothing.
    pub open spec fn with_multi(self, k: Seq<char>, e: EntryView) -> TierView {
        if e.total > self.capacity {
            self
        } else {
            self.forced_multi(k, e, self.capacity)
        }
    }

    /// An object put in in segments, whatever its size, within a budget of its own.
    pub open spec fn forced_multi(self, k: Seq<char>, e: EntryView, budget: nat) -> TierView {
        let t = self.invalidated(k);
        let v = evict(t.multis, t.current, e.total, budget);
        TierView {
            multis: after_put(v.0, k, e, ENTRY_LIMIT as nat),
            current: v.1 + e.total,
            evictions: bump(self.evictions, v.2),
            ..t
        }
    }

    /// An object that already lies in the slab put in: it counts against the larger of budget
    /// and slab, and is put in even where it exceeds that. Without either nothing is dropped.
    pub open spec fn with_slab_object(self, k: Seq<char>, e: EntryView) -> TierView {
        if e.total == 0 {
            self
        } else if self.slab_budget() > 0 {
            self.forced_multi(k, e, self.slab_budget())
        } else {
            let t = self.invalidated(k);
            TierView {
                multis: after_put(t.multis, k, e, ENTRY_LIMIT as nat),
                current: t.current + e.total,
                ..t
            }
        }
    }

    /// The larger of budget and slab.
    pub open spec fn slab_budget(self) -> nat {
        match self.slab_capacity {
            Some(c) => if c > self.capacity {
                c as nat
            } else {
                self.capacity
            },
            None => self.capacity,
        }
    }

    /// A read that was answered from `singles`.
    pub open spec fn hit_single(self, k: Seq<char>) -> TierView {
        TierView {
            singles: without(self.singles, k).push((k, lookup(self.singles, k)->0)),
            hits: bump(self.hits, 1),
            ..self
        }
    }

    /// A read that was answered from `multis`.
    pub open spec fn hit_multi(self, k: Seq<char>) -> TierView {
        TierView {
            multis: without(self.multis, k).push((k, lookup(self.multis, k)->0)),
            hits: bump(self.hits, 1),
            ..self
        }
    }

    /// A read that was not answered here.
    pub open spec fn missed(self) -> TierView {
        TierView { misses: bump(self.misses, 1), ..self }
    }

    /// A read of one version that found another: the other counts as used, the read as missed.
    pub open spec fn stale_single(self, k: Seq<char>) -> TierView {
        TierView { hits: self.hits, ..self.hit_single(k) }.missed()
    }

    /// A read of one version that found another: the other counts as used, the read as missed.
    pub open spec fn stale_multi(self, k: Seq<char>) -> TierView {
        TierView { hits: self.hits, ..self.hit_multi(k) }.missed()
    }

    /// No key occurs twice, in one cache or over both; neither holds too many entries; each
    /// entry counts the bytes that it holds; the bytes that count are at least those held.
    pub open spec fn wf(self) -> bool {
        &&& recency::distinct(self.singles)
        &&& recency::distinct(self.multis)
        &&& forall|k: Seq<char>| #[trigger]
            lookup(self.singles, k) is None || lookup(self.multis, k) is None
        &&& self.singles.len() <= ENTRY_LIMIT
        &&& self.multis.len() <= ENTRY_LIMIT
        &&& forall|i: int| 0 <= i < self.singles.len() ==> one_buffer((#[trigger] self.singles[i]).1)
        &&& forall|i: int| 0 <= i < self.multis.len() ==> counted((#[trigger] self.multis[i]).1)
        &&& held(self.singles) + held(self.multis) <= self.current
    }

    /// The bytes that count are exactly those held.
    pub open spec fn exact(self) -> bool {
        held(self.singles) + held(self.multis) == self.current
    }
}

/// The entry counts the bytes that it holds.
pub open spec fn counted(e: EntryView) -> bool {
    e.total == concat(e.segments).len()
}

/// The entry is one buffer and counts the bytes that it holds.
pub open spec fn one_buffer(e: EntryView) -> bool {
    e.segments.len() == 1 && e.total == e.segments[0].len()
}

pub(crate) proof fn lemma_evict(s: Recency, current: int, size: nat, budget: nat)
    requires
        recency::distinct(s),
        held(s) <= current,
    ensures
        ({
            let v = evict(s, current, size, budget);
            &&& recency::distinct(v.0)
            &&& v.0 == s.skip(v.2 as int)
            &&& v.2 <= s.len()
            &&& v.1 <= current
            &&& current - v.1 == held(s) - held(v.0)
            &&& v.1 + size <= budget || v.0.len() == 0
            &&& forall|j: Seq<char>|
                lookup(v.0, j) is Some ==> #[trigger] lookup(s, j) == lookup(v.0, j)
        }),
    decreases s.len(),
{
    if s.len() > 0 && current + size > budget {
        recency::lemma_skip(s);
        lemma_evict(s.skip(1), current - s[0].1.total, size, budget);
        let v = evict(s, current, size, budget);
        assert(v.0 =~= s.skip(v.2 as int));
    } else {
        assert(s =~= s.skip(0));
    }
}

pub(crate) proof fn lemma_evict_freeing(s: Recency, current: int, need: int)
    requires
        recency::distinct(s),
        held(s) <= current,
    ensures
        ({
            let v = evict_freeing(s, current, need);
            &&& recency::distinct(v.0)
            &&& v.0 == s.skip(v.2 as int)
            &&& v.2 <= s.len()
            &&& current - v.1 == held(s) - held(v.0)
            &&& current - v.1 >= need || v.0.len() == 0
            &&& forall|j: Seq<char>|
                lookup(v.0, j) is Some ==> #[trigger] lookup(s, j) == lookup(v.0, j)
        }),
    decreases s.len(),
{
    if s.len() > 0 && need > 0 {
        recency::lemma_skip(s);
        lemma_evict_freeing(s.skip(1), current - s[0].1.total, need - s[0].1.total);
        let v = evict_freeing(s, current, need);
        assert(v.0 =~= s.skip(v.2 as int));
    } else {
        assert(s =~= s.skip(0));
    }
}

pub(crate) proof fn lemma_invalidated(t: TierView, k: Seq<char>)
    requires
        t.wf(),
    ensures
        t.invalidated(k).wf(),
        lookup(t.invalidated(k).singles, k) is None,
        lookup(t.invalidated(k).multis, k) is None,
        t.exact() ==> t.invalidated(k).exact(),
        forall|j: Seq<char>|
            j != k ==> #[trigger] lookup(t.invalidated(k).singles, j) == lookup(t.singles, j),
        forall|j: Seq<char>|
            j != k ==> #[trigger] lookup(t.invalidated(k).multis, j) == lookup(t.multis, j),
        t.invalidated(k).current <= t.current,
{
    recency::lemma_without(t.singles, k);
    recency::lemma_without(t.multis, k);
    let r = t.invalidated(k);
    assert forall|j: Seq<char>| #[trigger] lookup(r.singles, j) is None || lookup(
        r.multis,
        j,
    ) is None by {
        if j != k {
            assert(lookup(t.singles, j) is None || lookup(t.multis, j) is None);
        }
    }
    assert forall|i: int| 0 <= i < r.singles.len() implies one_buffer(
        (#[trigger] r.singles[i]).1,
    ) by {
        assert(t.singles.contains(r.singles[i]));
    }
    assert forall|i: int| 0 <= i < r.multis.len() implies counted((#[trigger] r.multis[i]).1) by {
        assert(t.multis.contains(r.multis[i]));
    }
}

/// Puts an entry under a key that is not there, after evictions.
pub(crate) proof fn lemma_put(s: Recency, k: Seq<char>, e: EntryView)
    requires
        recency::distinct(s),
        lookup(s, k) is None,
        s.len() <= ENTRY_LIMIT,
    ensures
        ({
            let r = after_put(s, k, e, ENTRY_LIMIT as nat);
            &&& recency::distinct(r)
            &&& lookup(r, k) == Some(e)
            &&& r.len() <= ENTRY_LIMIT
            &&& held(r) <= held(s) + e.total
            &&& s.len() < ENTRY_LIMIT ==> held(r) == held(s) + e.total
            &&& forall|j: Seq<char>|
                j != k && lookup(r, j) is Some ==> #[trigger] lookup(s, j) == lookup(r, j)
            &&& s.len() < ENTRY_LIMIT ==> forall|j: Seq<char>|
                j != k ==> #[trigger] lookup(r, j) == lookup(s, j)
            &&& forall|i: int|
                0 <= i < r.len() ==> (#[trigger] r[i]) == (k, e) || s.contains(r[i])
        }),
{
    let r = after_put(s, k, e, ENTRY_LIMIT as nat);
    if s.len() == ENTRY_LIMIT {
        recency::lemma_skip(s);
        let f = s.skip(1);
        if lookup(f, k) is Some {
            assert(lookup(s, k) == lookup(f, k));
        }
        recency::lemma_push(f, k, e);
        assert forall|i: int| 0 <= i < r.len() implies (#[trigger] r[i]) == (k, e) || s.contains(
            r[i],
        ) by {
            if i < f.len() {
                assert(s[i + 1] == r[i]);
            }
        }
        assert forall|j: Seq<char>| j != k && lookup(r, j) is Some implies #[trigger] lookup(s, j)
            == lookup(r, j) by {
            assert(lookup(r, j) == lookup(f, j));
        }
    } else {
        recency::lemma_push(s, k, e);
        assert forall|i: int| 0 <= i < r.len() implies (#[trigger] r[i]) == (k, e) || s.contains(
            r[i],
        ) by {
            if i < s.len() {
                assert(s[i] == r[i]);
            }
        }
    }
}

/// Everything that a put as one buffer keeps and gives.
pub(crate) proof fn lemma_with_single(t: TierView, k: Seq<char>, e: EntryView)
    requires
        t.wf(),
        one_buffer(e),
    ensures
        t.with_single(k, e).wf(),
        t.with_single(k, e).current <= t.current + e.total,
        e.total <= t.capacity ==> {
            &&& lookup(t.with_single(k, e).singles, k) == Some(e)
            &&& lookup(t.with_single(k, e).multis, k) is None
        },
        t.exact() && t.singles.len() < ENTRY_LIMIT ==> t.with_single(k, e).exact(),
        held(t.singles) <= t.capacity ==> held(t.with_single(k, e).singles) <= t.capacity,
        held(t.with_single(k, e).multis) <= held(t.multis),
{
    if e.total <= t.capacity {
        lemma_invalidated(t, k);
        let u = t.invalidated(k);
        let v = evict(u.singles, u.current, e.total, t.capacity);
        lemma_evict(u.singles, u.current, e.total, t.capacity);
        recency::lemma_without(t.singles, k);
        recency::lemma_without(t.multis, k);
        if lookup(v.0, k) is Some {
            assert(lookup(u.singles, k) == lookup(v.0, k));
        }
        lemma_put(v.0, k, e);
        let r = t.with_single(k, e);
        assert forall|j: Seq<char>| #[trigger] lookup(r.singles, j) is None || lookup(
            r.multis,
            j,
        ) is None by {
            if j != k && lookup(r.singles, j) is Some {
                assert(lookup(v.0, j) == lookup(r.singles, j));
                assert(lookup(u.singles, j) == lookup(v.0, j));
                assert(lookup(u.singles, j) is None || lookup(u.multis, j) is None);
            }
        }
        assert forall|i: int| 0 <= i < r.singles.len() implies one_buffer(
            (#[trigger] r.singles[i]).1,
        ) by {
            if r.singles[i] != (k, e) {
                assert(v.0.contains(r.singles[i]));
                let x = choose|x: int| 0 <= x < v.0.len() && v.0[x] == r.singles[i];
                assert(v.0[x] == u.singles[x + v.2]);
            }
        }
        assert(held(v.0) + e.total <= t.capacity) by {
            if v.0.len() == 0 {
                assert(held(v.0) == 0);
            } else {
                assert(held(v.0) <= v.1);
            }
        }
    }
}

/// Everything that a put in segments keeps and gives.
pub(crate) proof fn lemma_forced_multi(t: TierView, k: Seq<char>, e: EntryView, budget: nat)
    requires
        t.wf(),
        counted(e),
    ensures
        t.forced_multi(k, e, budget).wf(),
        t.forced_multi(k, e, budget).current <= t.current + e.total,
        lookup(t.forced_multi(k, e, budget).multis, k) == Some(e),
        lookup(t.forced_multi(k, e, budget).singles, k) is None,
        t.exact() && t.multis.len() < ENTRY_LIMIT ==> t.forced_multi(k, e, budget).exact(),
        e.total <= budget ==> held(t.forced_multi(k, e, budget).multis) <= budget,
        held(t.forced_multi(k, e, budget).singles) <= held(t.singles),
{
    lemma_invalidated(t, k);
    let u = t.invalidated(k);
    let v = evict(u.multis, u.current, e.total, budget);
    lemma_evict(u.multis, u.current, e.total, budget);
    recency::lemma_without(t.singles, k);
    recency::lemma_without(t.multis, k);
    if lookup(v.0, k) is Some {
        assert(lookup(u.multis, k) == lookup(v.0, k));
    }
    lemma_put(v.0, k, e);
    let r = t.forced_multi(k, e, budget);
    lemma_multi_put(u, v, k, e, r);
    assert(e.total <= budget ==> held(v.0) + e.total <= budget) by {
        if v.0.len() == 0 {
            assert(held(v.0) == 0);
        } else {
            assert(held(v.0) <= v.1);
        }
    }
}

proof fn lemma_multi_put(
    u: TierView,
    v: (Recency, int, nat),
    k: Seq<char>,
    e: EntryView,
    r: TierView,
)
    requires
        u.wf(),
        counted(e),
        recency::distinct(v.0),
        v.0 == u.multis.skip(v.2 as int),
        v.2 <= u.multis.len(),
        forall|j: Seq<char>|
            lookup(v.0, j) is Some ==> #[trigger] lookup(u.multis, j) == lookup(v.0, j),
        lookup(u.singles, k) is None,
        lookup(u.multis, k) is None,
        lookup(v.0, k) is None,
        r.multis == after_put(v.0, k, e, ENTRY_LIMIT as nat),
        r.singles == u.singles,
        held(r.singles) + held(r.multis) <= r.current,
    ensures
        r.wf(),
{
    lemma_put(v.0, k, e);
    assert forall|j: Seq<char>| #[trigger] lookup(r.singles, j) is None || lookup(
        r.multis,
        j,
    ) is None by {
        if j != k && lookup(r.multis, j) is Some {
            assert(lookup(v.0, j) == lookup(r.multis, j));
            assert(lookup(u.multis, j) == lookup(v.0, j));
            assert(lookup(u.singles, j) is None || lookup(u.multis, j) is None);
        }
    }
    assert forall|i: int| 0 <= i < r.multis.len() implies counted((#[trigger] r.multis[i]).1) by {
        if r.multis[i] != (k, e) {
            assert(v.0.contains(r.multis[i]));
            let x = choose|x: int| 0 <= x < v.0.len() && v.0[x] == r.multis[i];
            assert(v.0[x] == u.multis[x + v.2]);
        }
    }
}

pub(crate) proof fn lemma_with_slab_object(t: TierView, k: Seq<char>, e: EntryView)
    requires
        t.wf(),
        counted(e),
    ensures
        t.with_slab_object(k, e).wf(),
        t.with_slab_object(k, e).current <= t.current + e.total,
        e.total > 0 ==> lookup(t.with_slab_object(k, e).multis, k) == Some(e),
        e.total > 0 ==> lookup(t.with_slab_object(k, e).singles, k) is None,
        t.exact() && t.multis.len() < ENTRY_LIMIT ==> t.with_slab_object(k, e).exact(),
{
    if e.total > 0 {
        if t.slab_budget() > 0 {
            lemma_forced_multi(t, k, e, t.slab_budget());
        } else {
            lemma_invalidated(t, k);
            let u = t.invalidated(k);
            recency::lemma_without(t.singles, k);
            recency::lemma_without(t.multis, k);
            assert(u.multis.skip(0) =~= u.multis);
            lemma_put(u.multis, k, e);
            lemma_multi_put(u, (u.multis, u.current, 0), k, e, t.with_slab_object(k, e));
        }
    }
}

proof fn lemma_touch(s: Recency, k: Seq<char>)
    requires
        recency::distinct(s),
        lookup(s, k) is Some,
    ensures
        ({
            let r = without(s, k).push((k, lookup(s, k)->0));
            &&& recency::distinct(r)
            &&& r.len() == s.len()
            &&& held(r) == held(s)
            &&& forall|j: Seq<char>| #[trigger] lookup(r, j) == lookup(s, j)
            &&& forall|i: int| 0 <= i < r.len() ==> s.contains(#[trigger] r[i])
        }),
{
    recency::lemma_without(s, k);
    let e = lookup(s, k)->0;
    recency::lemma_push(without(s, k), k, e);
    recency::lemma_lookup(s, k);
    let r = without(s, k).push((k, e));
    assert forall|i: int| 0 <= i < r.len() implies s.contains(#[trigger] r[i]) by {
        if i < without(s, k).len() {
            assert(s.contains(without(s, k)[i]));
        } else {
            let x = choose|x: int| 0 <= x < s.len() && (#[trigger] s[x]).0 == k && s[x].1 == e;
            assert(s[x] == r[i]);
        }
    }
}

/// Reading changes neither what is held nor what counts.
pub proof fn reading_keeps_the_objects(t: TierView, k: Seq<char>)
    requires
        t.wf(),
    ensures
        lookup(t.singles, k) is Some ==> {
            &&& t.hit_single(k).wf()
            &&& t.stale_single(k).wf()
            &&& forall|j: Seq<char>| #[trigger]
                lookup(t.hit_single(k).singles, j) == lookup(t.singles, j)
            &&& t.exact() ==> t.hit_single(k).exact()
        },
        lookup(t.multis, k) is Some ==> {
            &&& t.hit_multi(k).wf()
            &&& t.stale_multi(k).wf()
            &&& forall|j: Seq<char>| #[trigger]
                lookup(t.hit_multi(k).multis, j) == lookup(t.multis, j)
            &&& t.exact() ==> t.hit_multi(k).exact()
        },
{
    if lookup(t.singles, k) is Some {
        lemma_touch(t.singles, k);
        let r = t.hit_single(k);
        assert forall|i: int| 0 <= i < r.singles.len() implies one_buffer(
            (#[trigger] r.singles[i]).1,
        ) by {
            assert(t.singles.contains(r.singles[i]));
        }
        assert forall|j: Seq<char>| #[trigger] lookup(r.singles, j) is None || lookup(
            r.multis,
            j,
        ) is None by {
            assert(lookup(t.singles, j) is None || lookup(t.multis, j) is None);
        }
        assert(t.stale_single(k).singles == r.singles);
    }
    if lookup(t.multis, k) is Some {
        lemma_touch(t.multis, k);
        let r = t.hit_multi(k);
        assert forall|i: int| 0 <= i < r.multis.len() implies counted(
            (#[trigger] r.multis[i]).1,
        ) by {
            assert(t.multis.contains(r.multis[i]));
        }
        assert forall|j: Seq<char>| #[trigger] lookup(r.singles, j) is None || lookup(
            r.multis,
            j,
        ) is None by {
            assert(lookup(t.singles, j) is None || lookup(t.multis, j) is None);
        }
        assert(t.stale_multi(k).multis == r.multis);
    }
}

/// The handle that a tier keeps an object under.
pub open spec fn slot(key: KeyView) -> Seq<char> {
    canonical(key)
}

impl View for MemoryTier {
    type V = TierView;

    closed spec fn view(&self) -> TierView {
        TierView {
            capacity: self.capacity_bytes as nat,
            singles: lru_entries(self.cache),
            multis: lru_entries(self.chunks_cache),
            current: self.current_size as int,
            hits: self.hits,
            misses: self.misses,
            evictions: self.evictions,
            slab_capacity: self.slab_capacity,
        }
    }
}

/// Bytes and record of an object, as they are answered.
pub open spec fn answers(r: (Bytes, BlockMeta), data: Seq<u8>, meta: MetaView) -> bool {
    payload(r.0) == data && r.1@ == meta
}

/// Segments and record of an object, as they are answered.
pub open spec fn answers_segments(
    r: (Vec<Bytes>, BlockMeta),
    segments: Seq<Seq<u8>>,
    meta: MetaView,
) -> bool {
    payloads(r.0@) == segments && r.1@ == meta
}

impl MemoryTier {
    /// The caches are made for the number of entries that the contract speaks of.
    pub closed spec fn limits(&self) -> bool {
        lru_limit(self.cache) == ENTRY_LIMIT && lru_limit(self.chunks_cache) == ENTRY_LIMIT
    }

    /// What holds of every tier.
    pub open spec fn inv(&self) -> bool {
        self.limits() && self@.wf()
    }

    /// An empty tier with the configured capacity.
    pub fn new(config: &Config) -> (r: MemoryTier)
        requires
            config.memory_tier.capacity_mb * 1024 * 1024 <= usize::MAX,
        ensures
            r.inv(),
            r@.exact(),
            r@ == (TierView {
                capacity: (config.memory_tier.capacity_mb * 1024 * 1024) as nat,
                singles: Seq::empty(),
                multis: Seq::empty(),
                current: 0,
                hits: 0,
                misses: 0,
                evictions: 0,
                slab_capacity: None,
            }),
    {
        let r = MemoryTier {
            capacity_bytes: config.memory_tier.capacity_mb * 1024 * 1024,
            cache: recency::lru_new(ENTRY_LIMIT),
            chunks_cache: recency::lru_new(ENTRY_LIMIT),
            current_size: 0,
            hits: 0,
            misses: 0,
            evictions: 0,
            slab_capacity: None,
        };
        proof {
            assert(r@.singles =~= Seq::<(Seq<char>, EntryView)>::empty());
            assert(r@.multis =~= Seq::<(Seq<char>, EntryView)>::empty());
        }
        r
    }

    /// Hits, misses, evictions and the bytes that count against the budget.
    pub fn stats(&self) -> (r: (u64, u64, u64, u64))
        requires
            self.inv(),
        ensures
            r.0 == self@.hits,
            r.1 == self@.misses,
            r.2 == self@.evictions,
            r.3 == self@.current,
    {
        (self.hits, self.misses, self.evictions, self.current_size)
    }

    /// Looks for an object held as one buffer. `None` sends the caller to storage, whose answer
    /// goes to [`MemoryTier::get_fetched`].
    pub fn get(&mut self, key: &ObjectKey) -> (r: Option<(Bytes, BlockMeta)>)
        requires
            old(self).inv(),
        ensures
            final(self).inv(),
            match lookup(old(self)@.singles, slot(key@)) {
                Some(e) => {
                    &&& r is Some && answers(r->0, e.segments[0], e.meta)
                    &&& final(self)@ == old(self)@.hit_single(slot(key@))
                },
                None => r is None && final(self)@ == old(self)@.missed(),
            },
    {
        let k = key.to_string_key();
        proof {
            reading_keeps_the_objects(self@, k@);
            recency::lemma_lookup(self@.singles, k@);
        }
        let ghost before = self@;
        let found = match recency::lru_get(&mut self.cache, &k) {
            Some(e) => Some(first_buffer(e)),
            None => None,
        };
        if found.is_some() {
            self.hits = increment(self.hits);
            proof {
                assert(self@ =~= before.hit_single(k@));
            }
        } else {
            self.misses = increment(self.misses);
            proof {
                assert(self@ =~= before.missed());
            }
        }
        found
    }

    /// Looks for one version of an object held as one buffer. `None` sends the caller to
    /// storage, whose answer goes to [`MemoryTier::get_fetched`].
    pub fn get_with_meta(&mut self, key: &ObjectKey, expected: &BlockMeta) -> (r: Option<
        (Bytes, BlockMeta),
    >)
        requires
            old(self).inv(),
        ensures
            final(self).inv(),
            match lookup(old(self)@.singles, slot(key@)) {
                Some(e) => if same_version(e.meta, expected@) {
                    &&& r is Some && answers(r->0, e.segments[0], e.meta)
                    &&& final(self)@ == old(self)@.hit_single(slot(key@))
                } else {
                    r is None && final(self)@ == old(self)@.stale_single(slot(key@))
                },
                None => r is None && final(self)@ == old(self)@.missed(),
            },
    {
        let k = key.to_string_key();
        proof {
            reading_keeps_the_objects(self@, k@);
            recency::lemma_lookup(self@.singles, k@);
        }
        let ghost before = self@;
        let found = match recency::lru_get(&mut self.cache, &k) {
            Some(e) => if meta_identity_matches(&e.meta, expected) {
                Some(first_buffer(e))
            } else {
                None
            },
            None => None,
        };
        if found.is_some() {
            self.hits = increment(self.hits);
            proof {
                assert(self@ =~= before.hit_single(k@));
            }
        } else {
            self.misses = increment(self.misses);
            proof {
                if lookup(before.singles, k@) is Some {
                    assert(self@ =~= before.stale_single(k@));
                } else {
                    assert(self@ =~= before.missed());
                }
            }
        }
        found
    }

    /// Looks for an object held in segments. `None` sends the caller to storage, whose answer
    /// goes to [`MemoryTier::get_chunks_fetched`].
    pub fn get_chunks(&mut self, key: &ObjectKey) -> (r: Option<(Vec<Bytes>, BlockMeta)>)
        requires
            old(self).inv(),
        ensures
            final(self).inv(),
            match lookup(old(self)@.multis, slot(key@)) {
                Some(e) => {
                    &&& r is Some && answers_segments(r->0, e.segments, e.meta)
                    &&& final(self)@ == old(self)@.hit_multi(slot(key@))
                },
                None => r is None && final(self)@ == old(self)@.missed(),
            },
    {
        let k = key.to_string_key();
        proof {
            reading_keeps_the_objects(self@, k@);
        }
        let ghost before = self@;
        let found = match recency::lru_get(&mut self.chunks_cache, &k) {
            Some(e) => Some((payload::clone_segments(&e.segments), e.meta.clone())),
            None => None,
        };
        if found.is_some() {
            self.hits = increment(self.hits);
            proof {
                assert(self@ =~= before.hit_multi(k@));
            }
        } else {
            self.misses = increment(self.misses);
            proof {
                assert(self@ =~= before.missed());
            }
        }
        found
    }

    /// Looks for one version of an object held in segments. `None` sends the caller to storage,
    /// whose answer goes to [`MemoryTier::get_chunks_fetched`].
    pub fn get_chunks_with_meta(&mut self, key: &ObjectKey, expected: &BlockMeta) -> (r: Option<
        (Vec<Bytes>, BlockMeta),
    >)
        requires
            old(self).inv(),
        ensures
            final(self).inv(),
            match lookup(old(self)@.multis, slot(key@)) {
                Some(e) => if same_version(e.meta, expected@) {
                    &&& r is Some && answers_segments(r->0, e.segments, e.meta)
                    &&& final(self)@ == old(self)@.hit_multi(slot(key@))
                } else {
                    r is None && final(self)@ == old(self)@.stale_multi(slot(key@))
                },
                None => r is None && final(self)@ == old(self)@.missed(),
            },
    {
        let k = key.to_string_key();
        proof {
            reading_keeps_the_objects(self@, k@);
        }
        let ghost before = self@;
        let found = match recency::lru_get(&mut self.chunks_cache, &k) {
            Some(e) => if meta_identity_matches(&e.meta, expected) {
                Some((payload::clone_segments(&e.segments), e.meta.clone()))
            } else {
                None
            },
            None => None,
        };
        if found.is_some() {
            self.hits = increment(self.hits);
            proof {
                assert(self@ =~= before.hit_multi(k@));
            }
        } else {
            self.misses = increment(self.misses);
            proof {
                if lookup(before.multis, k@) is Some {
                    assert(self@ =~= before.stale_multi(k@));
                } else {
                    assert(self@ =~= before.missed());
                }
            }
        }
        found
    }

    /// Whether an object is held here. Where it is not, storage decides.
    pub fn contains(&self, key: &ObjectKey) -> (r: bool)
        requires
            self.inv(),
        ensures
            r == (lookup(self@.singles, slot(key@)) is Some || lookup(
                self@.multis,
                slot(key@),
            ) is Some),
    {
        let k = key.to_string_key();
        recency::lru_contains(&self.cache, &k) || recency::lru_contains(&self.chunks_cache, &k)
    }

    fn invalidate_l1_entry(&mut self, k: &String)
        requires
            old(self).inv(),
        ensures
            final(self).inv(),
            final(self)@ == old(self)@.invalidated(k@),
    {
        let ghost before = self@;
        proof {
            lemma_invalidated(before, k@);
            recency::lemma_without(before.singles, k@);
            recency::lemma_without(before.multis, k@);
        }
        match recency::lru_pop(&mut self.cache, k) {
            Some(e) => {
                self.current_size = self.current_size - e.total_size as u64;
            },
            None => {},
        }
        match recency::lru_pop(&mut self.chunks_cache, k) {
            Some(e) => {
                self.current_size = self.current_size - e.total_size as u64;
            },
            None => {},
        }
        proof {
            assert(self@ =~= before.invalidated(k@));
        }
    }

    /// Drops both representations of an object.
    pub fn invalidate(&mut self, key: &ObjectKey)
        requires
            old(self).inv(),
        ensures
            final(self).inv(),
            final(self)@ == old(self)@.invalidated(slot(key@)),
    {
        let k = key.to_string_key();
        self.invalidate_l1_entry(&k);
    }

    /// Drops an object before storage deletes it.
    pub fn delete(&mut self, key: &ObjectKey)
        requires
            old(self).inv(),
        ensures
            final(self).inv(),
            final(self)@ == old(self)@.invalidated(slot(key@)),
    {
        self.invalidate(key);
    }

    fn cache_insert(&mut self, k: String, data: Bytes, meta: BlockMeta)
        requires
            old(self).inv(),
            old(self)@.current + payload(data).len() <= u64::MAX,
        ensures
            final(self).inv(),
            final(self)@ == old(self)@.with_single(k@, single_entry(payload(data), meta@)),
    {
        let ghost before = self@;
        let ghost e = single_entry(payload(data), meta@);
        proof {
            lemma_with_single(before, k@, e);
            lemma_invalidated(before, k@);
        }
        let total_size: usize = data.len();
        let size: u64 = total_size as u64;
        let capacity: u64 = self.capacity_bytes as u64;
        if size > capacity {
            return;
        }
        self.invalidate_l1_entry(&k);
        let ghost after = self@;
        let ghost mut dropped: nat = 0;
        proof {
            lemma_evict(after.singles, after.current, e.total, before.capacity);
        }
        while self.current_size > capacity - size && !recency::lru_is_empty(&self.cache)
            invariant
                size <= capacity,
                size == e.total,
                capacity == before.capacity,
                self.limits(),
                self@.capacity == before.capacity,
                self@.multis == after.multis,
                self@.hits == before.hits,
                self@.misses == before.misses,
                self@.slab_capacity == before.slab_capacity,
                recency::distinct(self@.singles),
                held(self@.singles) <= self@.current,
                self@.evictions == bump(before.evictions, dropped),
                ({
                    let whole = evict(after.singles, after.current, e.total, before.capacity);
                    let rest = evict(self@.singles, self@.current, e.total, before.capacity);
                    whole.0 == rest.0 && whole.1 == rest.1 && whole.2 == dropped + rest.2
                }),
            decreases lru_entries(self.cache).len(),
        {
            let ghost s = self@.singles;
            proof {
                recency::lemma_skip(s);
            }
            match recency::lru_pop_lru(&mut self.cache) {
                Some((_, x)) => {
                    self.current_size = self.current_size - x.total_size as u64;
                    self.evictions = increment(self.evictions);
                    proof {
                        lemma_bump_again_after(before.evictions, dropped);
                        dropped = dropped + 1;
                    }
                },
                None => {},
            }
        }
        proof {
            let v = evict(after.singles, after.current, e.total, before.capacity);
            assert(self@.singles == v.0);
            assert(self@.current == v.1);
            if lookup(v.0, k@) is Some {
                assert(lookup(after.singles, k@) == lookup(v.0, k@));
            }
        }
        let mut segments: Vec<Bytes> = Vec::new();
        segments.push(data);
        let entry = CacheEntry { segments, meta, total_size, slab: None };
        proof {
            assert(entry@.segments =~= e.segments);
            assert(entry@ =~= e);
        }
        let ghost name = k@;
        let replaced = recency::lru_put(&mut self.cache, k, entry);
        self.current_size = self.current_size + size;
        proof {
            assert(self@ =~= before.with_single(name, e));
        }
    }

    fn chunks_cache_insert(
        &mut self,
        k: String,
        segments: Vec<Bytes>,
        meta: BlockMeta,
        total_size: usize,
        slab: Option<u64>,
        budget: u64,
    )
        requires
            old(self).inv(),
            total_size == concat(payloads(segments@)).len(),
            old(self)@.current + total_size <= u64::MAX,
        ensures
            final(self).inv(),
            final(self)@ == old(self)@.forced_multi(
                k@,
                multi_entry(payloads(segments@), meta@, slab),
                budget as nat,
            ),
    {
        let ghost before = self@;
        let ghost e = multi_entry(payloads(segments@), meta@, slab);
        proof {
            lemma_forced_multi(before, k@, e, budget as nat);
            lemma_invalidated(before, k@);
        }
        let size: u64 = total_size as u64;
        self.invalidate_l1_entry(&k);
        let ghost after = self@;
        let ghost mut dropped: nat = 0;
        proof {
            lemma_evict(after.multis, after.current, e.total, budget as nat);
        }
        while (size > budget || self.current_size > budget - size) && !recency::lru_is_empty(
            &self.chunks_cache,
        )
            invariant
                size == e.total,
                self.limits(),
                self@.capacity == before.capacity,
                self@.singles == after.singles,
                self@.hits == before.hits,
                self@.misses == before.misses,
                self@.slab_capacity == before.slab_capacity,
                recency::distinct(self@.multis),
                held(self@.multis) <= self@.current,
                self@.evictions == bump(before.evictions, dropped),
                ({
                    let whole = evict(after.multis, after.current, e.total, budget as nat);
                    let rest = evict(self@.multis, self@.current, e.total, budget as nat);
                    whole.0 == rest.0 && whole.1 == rest.1 && whole.2 == dropped + rest.2
                }),
            decreases lru_entries(self.chunks_cache).len(),
        {
            let ghost s = self@.multis;
            proof {
                recency::lemma_skip(s);
            }
            match recency::lru_pop_lru(&mut self.chunks_cache) {
                Some((_, x)) => {
                    self.current_size = self.current_size - x.total_size as u64;
                    self.evictions = increment(self.evictions);
                    proof {
                        lemma_bump_again_after(before.evictions, dropped);
                        dropped = dropped + 1;
                    }
                },
                None => {},
            }
        }
        proof {
            let v = evict(after.multis, after.current, e.total, budget as nat);
            assert(self@.multis == v.0);
            assert(self@.current == v.1);
            if lookup(v.0, k@) is Some {
                assert(lookup(after.multis, k@) == lookup(v.0, k@));
            }
        }
        let entry = CacheEntry { segments, meta, total_size, slab };
        proof {
            assert(entry@ =~= e);
        }
        let ghost name = k@;
        let replaced = recency::lru_put(&mut self.chunks_cache, k, entry);
        self.current_size = self.current_size + size;
        proof {
            assert(self@ =~= before.forced_multi(name, e, budget as nat));
        }
    }
}

fn first_buffer(e: &CacheEntry) -> (r: (Bytes, BlockMeta))
    requires
        e@.segments.len() >= 1,
    ensures
        answers(r, e@.segments[0], e@.meta),
{
    proof {
        assert(e@.segments.len() == e.segments@.len());
        assert(e@.segments[0] == payload(e.segments@[0]));
    }
    (e.segments[0].clone(), e.meta.clone())
}

proof fn lemma_bump_again_after(x: u64, n: nat)
    ensures
        bump(bump(x, n), 1) == bump(x, n + 1),
{
    let m = 0x1_0000_0000_0000_0000int;
    vstd::arithmetic::div_mod::lemma_mod_bound(x + n, m);
    vstd::arithmetic::div_mod::lemma_add_mod_noop(x + n, 1, m);
    vstd::arithmetic::div_mod::lemma_add_mod_noop((x + n) % m, 1, m);
    vstd::arithmetic::div_mod::lemma_mod_twice(x + n, m);
    assert((x + n) + 1 == x + (n + 1));
}


/// The record to keep with an object: the stored one, or what was handed to storage where there
/// is none.
pub fn stored_or(stored: Option<BlockMeta>, fallback: BlockMeta) -> (r: BlockMeta)
    ensures
        r == (match stored {
            Some(m) => m,
            None => fallback,
        }),
{
    match stored {
        Some(m) => m,
        None => fallback,
    }
}

/// What storage found for one key.
pub type Fetched = Result<Option<(Bytes, BlockMeta)>, KVError>;

/// What storage found for one key, in segments.
pub type FetchedSegments = Result<Option<(Vec<Bytes>, BlockMeta)>, KVError>;

/// The answer that storage gave is handed on.
pub open spec fn handed_on(r: Fetched, fetched: Fetched) -> bool {
    match fetched {
        Ok(Some(x)) => r matches Ok(Some(y)) && answers(y, payload(x.0), x.1@),
        Ok(None) => r matches Ok(None),
        Err(e) => r == Err::<Option<(Bytes, BlockMeta)>, KVError>(e),
    }
}

impl TierView {
    /// An object that was written to storage as one buffer.
    pub open spec fn put(self, k: Seq<char>, data: Seq<u8>, meta: MetaView) -> TierView {
        self.invalidated(k).with_single(k, single_entry(data, meta))
    }

    /// An object that was written to storage in segments.
    pub open spec fn put_chunks(
        self,
        k: Seq<char>,
        segments: Seq<Seq<u8>>,
        meta: MetaView,
        slab: Option<u64>,
    ) -> TierView {
        self.invalidated(k).with_multi(k, multi_entry(segments, meta, slab))
    }

    /// What storage found is kept, where it found something.
    pub open spec fn fetched(self, k: Seq<char>, found: Fetched) -> TierView {
        match found {
            Ok(Some(x)) => self.with_single(k, single_entry(payload(x.0), x.1@)),
            _ => self,
        }
    }
}

impl MemoryTier {
    /// Takes in an object that storage has accepted: every earlier representation goes.
    pub fn put(&mut self, key: &ObjectKey, data: Bytes, meta: BlockMeta)
        requires
            old(self).inv(),
            old(self)@.current + payload(data).len() <= u64::MAX,
        ensures
            final(self).inv(),
            final(self)@ == old(self)@.put(slot(key@), payload(data), meta@),
            has_room(old(self)@, slot(key@), payload(data).len()) ==> all_others_kept(
                old(self)@,
                final(self)@,
                slot(key@),
            ),
    {
        let k = key.to_string_key();
        proof {
            lemma_invalidated(self@, k@);
            if self@.singles.len() < ENTRY_LIMIT && self@.multis.len() < ENTRY_LIMIT {
                keeping::what_fits_drops_nothing(
                    self@,
                    k@,
                    payload(data),
                    Seq::empty(),
                    meta@,
                    None,
                );
            }
        }
        self.invalidate_l1_entry(&k);
        self.cache_insert(k, data, meta);
    }

    /// Takes in an object that storage has accepted in segments: every earlier representation
    /// goes. `slab` names the extent that the segments lie in, where they do.
    pub fn put_chunks(
        &mut self,
        key: &ObjectKey,
        segments: Vec<Bytes>,
        meta: BlockMeta,
        slab: Option<u64>,
    )
        requires
            old(self).inv(),
            concat(payloads(segments@)).len() <= usize::MAX,
            old(self)@.current + concat(payloads(segments@)).len() <= u64::MAX,
        ensures
            final(self).inv(),
            final(self)@ == old(self)@.put_chunks(slot(key@), payloads(segments@), meta@, slab),
            has_room(old(self)@, slot(key@), concat(payloads(segments@)).len()) ==> all_others_kept(
                old(self)@,
                final(self)@,
                slot(key@),
            ),
    {
        let k = key.to_string_key();
        proof {
            lemma_invalidated(self@, k@);
            if self@.singles.len() < ENTRY_LIMIT && self@.multis.len() < ENTRY_LIMIT {
                keeping::what_fits_drops_nothing(
                    self@,
                    k@,
                    Seq::empty(),
                    payloads(segments@),
                    meta@,
                    slab,
                );
            }
        }
        self.invalidate_l1_entry(&k);
        let total_size: usize = payload::total_len(&segments);
        if total_size > self.capacity_bytes {
            return;
        }
        let budget: u64 = self.capacity_bytes as u64;
        self.chunks_cache_insert(k, segments, meta, total_size, slab, budget);
    }

    /// Takes in what storage found for a read that was not answered here, and hands it on.
    pub fn get_fetched(&mut self, key: &ObjectKey, fetched: Fetched) -> (r: Fetched)
        requires
            old(self).inv(),
            fetched matches Ok(Some(x)) ==> old(self)@.current + payload(x.0).len() <= u64::MAX,
        ensures
            final(self).inv(),
            handed_on(r, fetched),
            final(self)@ == old(self)@.fetched(slot(key@), fetched),
            fetched matches Ok(Some(x)) ==> has_room(
                old(self)@,
                slot(key@),
                payload(x.0).len(),
            ) ==> all_others_kept(old(self)@, final(self)@, slot(key@)),
    {
        match fetched {
            Ok(Some((data, meta))) => {
                let k = key.to_string_key();
                proof {
                    if self@.singles.len() < ENTRY_LIMIT && self@.multis.len() < ENTRY_LIMIT {
                        keeping::what_fits_drops_nothing(
                            self@,
                            k@,
                            payload(data),
                            Seq::empty(),
                            meta@,
                            None,
                        );
                    }
                }
                self.cache_insert(k, data.clone(), meta.clone());
                Ok(Some((data, meta)))
            },
            Ok(None) => Ok(None),
            Err(e) => Err(e),
        }
    }

    /// Takes in what storage found in segments for a read that was not answered here, and hands
    /// it on. `slab` names the extent that the segments lie in, where they do.
    pub fn get_chunks_fetched(
        &mut self,
        key: &ObjectKey,
        fetched: FetchedSegments,
        slab: Option<u64>,
    ) -> (r: FetchedSegments)
        requires
            old(self).inv(),
            fetched matches Ok(Some(x)) ==> concat(payloads(x.0@)).len() <= usize::MAX && old(
                self,
            )@.current + concat(payloads(x.0@)).len() <= u64::MAX,
        ensures
            final(self).inv(),
            match fetched {
                Ok(Some(x)) => {
                    &&& r matches Ok(Some(y)) && answers_segments(y, payloads(x.0@), x.1@)
                    &&& final(self)@ == old(self)@.with_multi(
                        slot(key@),
                        multi_entry(payloads(x.0@), x.1@, slab),
                    )
                    &&& has_room(old(self)@, slot(key@), concat(payloads(x.0@)).len())
                        ==> all_others_kept(old(self)@, final(self)@, slot(key@))
                },
                Ok(None) => (r matches Ok(None)) && final(self)@ == old(self)@,
                Err(e) => r == Err::<Option<(Vec<Bytes>, BlockMeta)>, KVError>(e) && final(self)@
                    == old(self)@,
            },
    {
        match fetched {
            Ok(Some((segments, meta))) => {
                let k = key.to_string_key();
                proof {
                    if self@.singles.len() < ENTRY_LIMIT && self@.multis.len() < ENTRY_LIMIT {
                        keeping::what_fits_drops_nothing(
                            self@,
                            k@,
                            Seq::empty(),
                            payloads(segments@),
                            meta@,
                            slab,
                        );
                    }
                }
                let total_size: usize = payload::total_len(&segments);
                if total_size <= self.capacity_bytes {
                    let budget: u64 = self.capacity_bytes as u64;
                    let kept = payload::clone_segments(&segments);
                    self.chunks_cache_insert(k, kept, meta.clone(), total_size, slab, budget);
                }
                Ok(Some((segments, meta)))
            },
            Ok(None) => Ok(None),
            Err(e) => Err(e),
        }
    }

    /// Drops an object that storage took over from GPU memory.
    pub fn put_from_gpu(&mut self, key: &ObjectKey)
        requires
            old(self).inv(),
        ensures
            final(self).inv(),
            final(self)@ == old(self)@.invalidated(slot(key@)),
    {
        self.invalidate(key);
    }

    /// Makes the size of the slab known, once. Says whether it was new.
    pub fn set_rdma_slab(&mut self, capacity: u64) -> (r: bool)
        requires
            old(self).inv(),
        ensures
            final(self).inv(),
            r == (old(self)@.slab_capacity is None),
            final(self)@ == (TierView {
                slab_capacity: if r {
                    Some(capacity)
                } else {
                    old(self)@.slab_capacity
                },
                ..old(self)@
            }),
    {
        let ghost before = self@;
        if self.slab_capacity.is_some() {
            return false;
        }
        self.slab_capacity = Some(capacity);
        proof {
            assert(self@ =~= (TierView { slab_capacity: Some(capacity), ..before }));
        }
        true
    }

    /// The size of the slab, where there is one.
    pub fn rdma_slab_get(&self) -> (r: Option<u64>)
        ensures
            r == self@.slab_capacity,
    {
        self.slab_capacity
    }

    /// Whether an object of `total` bytes is worth moving into the slab: there is one, and the
    /// object will be kept here.
    pub fn wants_slab(&self, total: usize) -> (r: bool)
        ensures
            r == (total <= self@.capacity && self@.slab_capacity is Some),
    {
        total <= self.capacity_bytes && self.slab_capacity.is_some()
    }

    /// Looks for an object that lies in the slab: its extent and its record. One that is held
    /// elsewhere counts as used, but as no hit.
    pub fn get_chunks_slab(&mut self, key: &ObjectKey) -> (r: Option<(u64, BlockMeta)>)
        requires
            old(self).inv(),
        ensures
            final(self).inv(),
            match lookup(old(self)@.multis, slot(key@)) {
                Some(e) => match e.slab {
                    Some(extent) => {
                        &&& r is Some
                        &&& (r->0).0 == extent
                        &&& (r->0).1@ == e.meta
                        &&& final(self)@ == old(self)@.hit_multi(slot(key@))
                    },
                    None => r is None && final(self)@ == (TierView {
                        hits: old(self)@.hits,
                        ..old(self)@.hit_multi(slot(key@))
                    }),
                },
                None => r is None && final(self)@ == old(self)@,
            },
    {
        let k = key.to_string_key();
        let ghost before = self@;
        proof {
            reading_keeps_the_objects(before, k@);
        }
        let found = match recency::lru_get(&mut self.chunks_cache, &k) {
            Some(e) => match e.slab {
                Some(extent) => Some((extent, e.meta.clone())),
                None => None,
            },
            None => None,
        };
        if found.is_some() {
            self.hits = increment(self.hits);
            proof {
                assert(self@ =~= before.hit_multi(k@));
            }
        } else {
            proof {
                if lookup(before.multis, k@) is Some {
                    assert(self@ =~= (TierView { hits: before.hits, ..before.hit_multi(k@) }));
                } else {
                    assert(self@ =~= before);
                }
            }
        }
        found
    }

    /// Takes in an object that was written straight into the slab. It is kept whatever its size,
    /// because its memory is already paid for; an empty one is not.
    pub fn insert_chunks_from_slab(
        &mut self,
        k: String,
        extent: u64,
        whole: Bytes,
        meta: BlockMeta,
    )
        requires
            old(self).inv(),
            old(self)@.current + payload(whole).len() <= u64::MAX,
        ensures
            final(self).inv(),
            final(self)@ == old(self)@.with_slab_object(
                k@,
                multi_entry(seq![payload(whole)], meta@, Some(extent)),
            ),
    {
        let ghost before = self@;
        let ghost e = multi_entry(seq![payload(whole)], meta@, Some(extent));
        proof {
            reveal_with_fuel(concat, 2);
            assert(seq![payload(whole)].drop_last() =~= Seq::<Seq<u8>>::empty());
            assert(concat(seq![payload(whole)]) =~= payload(whole));
            lemma_with_slab_object(before, k@, e);
            lemma_invalidated(before, k@);
        }
        let total_size: usize = whole.len();
        if total_size == 0 {
            return;
        }
        let mut segments: Vec<Bytes> = Vec::new();
        segments.push(whole);
        proof {
            assert(payloads(segments@) =~= seq![payload(whole)]);
        }
        let slab: u64 = match self.slab_capacity {
            Some(c) => c,
            None => 0,
        };
        let capacity: u64 = self.capacity_bytes as u64;
        let budget: u64 = if slab > capacity {
            slab
        } else {
            capacity
        };
        if budget > 0 {
            self.chunks_cache_insert(k, segments, meta, total_size, Some(extent), budget);
        } else {
            self.invalidate_l1_entry(&k);
            let entry = CacheEntry { segments, meta, total_size, slab: Some(extent) };
            proof {
                assert(entry@ =~= e);
            }
            let ghost name = k@;
            let replaced = recency::lru_put(&mut self.chunks_cache, k, entry);
            self.current_size = self.current_size + total_size as u64;
            proof {
                assert(self@ =~= before.with_slab_object(name, e));
            }
        }
    }

    /// Makes room in the slab: drops objects in segments, least recently used first, until at
    /// least `need` bytes were freed or none is left.
    pub fn evict_chunks_cache_to_free(&mut self, need: usize)
        requires
            old(self).inv(),
        ensures
            final(self).inv(),
            ({
                let v = evict_freeing(old(self)@.multis, old(self)@.current, need as int);
                final(self)@ == (TierView {
                    multis: v.0,
                    current: v.1,
                    evictions: bump(old(self)@.evictions, v.2),
                    ..old(self)@
                })
            }),
    {
        let ghost before = self@;
        proof {
            lemma_evict_freeing(before.multis, before.current, need as int);
            assert(bump(before.evictions, 0) == before.evictions);
        }
        let need: u64 = need as u64;
        let mut freed: u64 = 0;
        let ghost mut dropped: nat = 0;
        while freed < need && !recency::lru_is_empty(&self.chunks_cache)
            invariant
                self.limits(),
                before.current <= u64::MAX,
                freed == before.current - self@.current,
                self@.capacity == before.capacity,
                self@.singles == before.singles,
                self@.hits == before.hits,
                self@.misses == before.misses,
                self@.slab_capacity == before.slab_capacity,
                recency::distinct(self@.multis),
                held(self@.multis) <= self@.current,
                self@.evictions == bump(before.evictions, dropped),
                ({
                    let whole = evict_freeing(before.multis, before.current, need as int);
                    let rest = evict_freeing(self@.multis, self@.current, need - freed);
                    whole.0 == rest.0 && whole.1 == rest.1 && whole.2 == dropped + rest.2
                }),
            decreases lru_entries(self.chunks_cache).len(),
        {
            let ghost s = self@.multis;
            proof {
                recency::lemma_skip(s);
            }
            match recency::lru_pop_lru(&mut self.chunks_cache) {
                Some((_, x)) => {
                    self.current_size = self.current_size - x.total_size as u64;
                    self.evictions = increment(self.evictions);
                    freed = freed + x.total_size as u64;
                    proof {
                        lemma_bump_again_after(before.evictions, dropped);
                        dropped = dropped + 1;
                    }
                },
                None => {},
            }
        }
        proof {
            let v = evict_freeing(before.multis, before.current, need as int);
            assert(self@.multis == v.0);
            let r = self@;
            assert forall|j: Seq<char>| #[trigger] lookup(r.singles, j) is None || lookup(
                r.multis,
                j,
            ) is None by {
                if lookup(r.multis, j) is Some {
                    assert(lookup(before.multis, j) == lookup(r.multis, j));
                    assert(lookup(before.singles, j) is None || lookup(before.multis, j) is None);
                }
            }
            assert forall|i: int| 0 <= i < r.multis.len() implies counted(
                (#[trigger] r.multis[i]).1,
            ) by {
                assert(r.multis[i] == before.multis[i + v.2]);
            }
            assert(self@ =~= (TierView {
                multis: v.0,
                current: v.1,
                evictions: bump(before.evictions, v.2),
                ..before
            }));
        }
    }
}

/// Views of a copy in the slab that match the segments copied, one for one.
pub fn slab_views(whole: &Bytes, segments: &Vec<Bytes>) -> (r: Vec<Bytes>)
    requires
        concat(payloads(segments@)).len() <= payload(*whole).len(),
    ensures
        r@.len() == segments@.len(),
        forall|i: int|
            0 <= i < r@.len() ==> payload(#[trigger] r@[i]) == payload(*whole).subrange(
                concat(payloads(segments@).take(i)).len() as int,
                concat(payloads(segments@).take(i + 1)).len() as int,
            ),
        payload(*whole) == concat(payloads(segments@)) ==> payloads(r@) == payloads(segments@),
{
    let ghost p = payloads(segments@);
    let n: usize = whole.len();
    let mut out: Vec<Bytes> = Vec::new();
    let mut off: usize = 0;
    let mut i: usize = 0;
    while i < segments.len()
        invariant
            i <= segments.len(),
            p == payloads(segments@),
            n == payload(*whole).len(),
            concat(p).len() <= n,
            off == concat(p.take(i as int)).len(),
            off <= n,
            out.len() == i,
            forall|k: int|
                0 <= k < i ==> payload(#[trigger] out@[k]) == payload(*whole).subrange(
                    concat(p.take(k)).len() as int,
                    concat(p.take(k + 1)).len() as int,
                ),
        decreases segments.len() - i,
    {
        let len: usize = segments[i].len();
        proof {
            assert(p.take(i + 1).drop_last() =~= p.take(i as int));
            payload::lemma_concat_prefix_len(p, i + 1);
        }
        out.push(payload::slice(whole, off, off + len));
        off = off + len;
        i = i + 1;
    }
    proof {
        if payload(*whole) == concat(p) {
            assert forall|k: int| 0 <= k < out@.len() implies payload(#[trigger] out@[k]) == p[k] by {
                assert(p.take(k + 1).drop_last() =~= p.take(k));
                assert(p =~= p.take(k + 1) + p.skip(k + 1));
                payload::lemma_concat_append(p.take(k + 1), p.skip(k + 1));
                assert(concat(p.take(k + 1)) == concat(p.take(k)) + p[k]);
                assert(payload(out@[k]) =~= p[k]);
            }
            assert(payloads(out@) =~= p);
        }
    }
    out
}

/// A read of an object after it was put gives what was put, whatever was held before, where the
/// object fits the tier.
pub proof fn put_is_read_back(t: TierView, k: Seq<char>, data: Seq<u8>, meta: MetaView)
    requires
        t.wf(),
        data.len() <= t.capacity,
    ensures
        t.put(k, data, meta).wf(),
        lookup(t.put(k, data, meta).singles, k) == Some(single_entry(data, meta)),
{
    lemma_invalidated(t, k);
    lemma_with_single(t.invalidated(k), k, single_entry(data, meta));
}

/// Putting an object as one buffer leaves no segments of it behind, fit or not.
pub proof fn put_drops_the_segments(t: TierView, k: Seq<char>, data: Seq<u8>, meta: MetaView)
    requires
        t.wf(),
    ensures
        lookup(t.put(k, data, meta).multis, k) is None,
        data.len() > t.capacity ==> lookup(t.put(k, data, meta).singles, k) is None,
{
    lemma_invalidated(t, k);
    lemma_with_single(t.invalidated(k), k, single_entry(data, meta));
}

/// A read in segments after a put in segments gives what was put, where the object fits.
pub proof fn put_chunks_is_read_back(
    t: TierView,
    k: Seq<char>,
    segments: Seq<Seq<u8>>,
    meta: MetaView,
    slab: Option<u64>,
)
    requires
        t.wf(),
        concat(segments).len() <= t.capacity,
    ensures
        t.put_chunks(k, segments, meta, slab).wf(),
        lookup(t.put_chunks(k, segments, meta, slab).multis, k) == Some(
            multi_entry(segments, meta, slab),
        ),
{
    lemma_invalidated(t, k);
    lemma_forced_multi(t.invalidated(k), k, multi_entry(segments, meta, slab), t.capacity);
}

/// Putting an object in segments leaves no single buffer of it behind, fit or not.
pub proof fn put_chunks_drops_the_single_buffer(
    t: TierView,
    k: Seq<char>,
    segments: Seq<Seq<u8>>,
    meta: MetaView,
    slab: Option<u64>,
)
    requires
        t.wf(),
    ensures
        lookup(t.put_chunks(k, segments, meta, slab).singles, k) is None,
        concat(segments).len() > t.capacity ==> lookup(
            t.put_chunks(k, segments, meta, slab).multis,
            k,
        ) is None,
{
    lemma_invalidated(t, k);
    lemma_forced_multi(t.invalidated(k), k, multi_entry(segments, meta, slab), t.capacity);
}

/// After an object is dropped neither representation of it is found; all others are.
pub proof fn invalidation_is_complete_and_local(t: TierView, k: Seq<char>)
    requires
        t.wf(),
    ensures
        lookup(t.invalidated(k).singles, k) is None,
        lookup(t.invalidated(k).multis, k) is None,
        forall|j: Seq<char>|
            j != k ==> #[trigger] lookup(t.invalidated(k).singles, j) == lookup(t.singles, j),
        forall|j: Seq<char>|
            j != k ==> #[trigger] lookup(t.invalidated(k).multis, j) == lookup(t.multis, j),
{
    lemma_invalidated(t, k);
}

/// The bytes that count stay exactly those held, as long as no cache is full of entries: a full
/// one drops an entry that goes on counting.
pub proof fn counting_stays_exact(
    t: TierView,
    k: Seq<char>,
    data: Seq<u8>,
    segments: Seq<Seq<u8>>,
    meta: MetaView,
    slab: Option<u64>,
)
    requires
        t.wf(),
        t.exact(),
        t.singles.len() < ENTRY_LIMIT,
        t.multis.len() < ENTRY_LIMIT,
    ensures
        t.invalidated(k).exact(),
        t.put(k, data, meta).exact(),
        t.with_single(k, single_entry(data, meta)).exact(),
        t.put_chunks(k, segments, meta, slab).exact(),
        t.with_multi(k, multi_entry(segments, meta, slab)).exact(),
        t.with_slab_object(k, multi_entry(segments, meta, slab)).exact(),
{
    lemma_invalidated(t, k);
    recency::lemma_without(t.singles, k);
    recency::lemma_without(t.multis, k);
    let u = t.invalidated(k);
    lemma_with_single(u, k, single_entry(data, meta));
    lemma_with_single(t, k, single_entry(data, meta));
    lemma_forced_multi(u, k, multi_entry(segments, meta, slab), t.capacity);
    lemma_forced_multi(t, k, multi_entry(segments, meta, slab), t.capacity);
    lemma_with_slab_object(t, k, multi_entry(segments, meta, slab));
}

/// Each cache by itself stays within the capacity under ordinary writes and reads.
pub proof fn each_cache_stays_within_capacity(
    t: TierView,
    k: Seq<char>,
    data: Seq<u8>,
    segments: Seq<Seq<u8>>,
    meta: MetaView,
    slab: Option<u64>,
)
    requires
        t.wf(),
        held(t.singles) <= t.capacity,
        held(t.multis) <= t.capacity,
    ensures
        held(t.with_single(k, single_entry(data, meta)).singles) <= t.capacity,
        held(t.with_single(k, single_entry(data, meta)).multis) <= t.capacity,
        held(t.with_multi(k, multi_entry(segments, meta, slab)).singles) <= t.capacity,
        held(t.with_multi(k, multi_entry(segments, meta, slab)).multis) <= t.capacity,
{
    lemma_with_single(t, k, single_entry(data, meta));
    lemma_forced_multi(t, k, multi_entry(segments, meta, slab), t.capacity);
}

/// Making room frees as much as was asked for, or everything.
pub proof fn making_room_frees_enough(t: TierView, need: nat)
    requires
        t.wf(),
    ensures
        ({
            let v = evict_freeing(t.multis, t.current, need as int);
            held(t.multis) - held(v.0) >= need || v.0.len() == 0
        }),
{
    lemma_evict_freeing(t.multis, t.current, need as int);
}


/// The tier after reads of the first `n` keys.
pub open spec fn after_reads(t: TierView, keys: Seq<ObjectKey>, n: nat) -> TierView
    decreases n,
{
    if n == 0 {
        t
    } else {
        let u = after_reads(t, keys, (n - 1) as nat);
        let k = slot(keys[n - 1]@);
        if lookup(u.singles, k) is Some {
            u.hit_single(k)
        } else {
            u.missed()
        }
    }
}

proof fn lemma_after_reads(t: TierView, keys: Seq<ObjectKey>, n: nat)
    requires
        t.wf(),
        n <= keys.len(),
    ensures
        after_reads(t, keys, n).wf(),
        after_reads(t, keys, n).current == t.current,
        after_reads(t, keys, n).capacity == t.capacity,
        forall|j: Seq<char>| #[trigger]
            lookup(after_reads(t, keys, n).singles, j) == lookup(t.singles, j),
    decreases n,
{
    if n > 0 {
        lemma_after_reads(t, keys, (n - 1) as nat);
        let u = after_reads(t, keys, (n - 1) as nat);
        reading_keeps_the_objects(u, slot(keys[n - 1]@));
        let r = after_reads(t, keys, n);
        assert forall|j: Seq<char>| #[trigger] lookup(r.singles, j) == lookup(t.singles, j) by {
            assert(lookup(u.singles, j) == lookup(t.singles, j));
        }
    }
}

/// What a batch of reads found here.
pub struct BatchLookup {
    /// For each key, the object, where it is held here.
    pub results: Vec<Option<(Bytes, BlockMeta)>>,
    /// The positions of the other keys: storage is asked for those.
    pub misses: Vec<usize>,
}

impl BatchLookup {
    /// The positions listed are those without an object, in order.
    pub open spec fn wf(self) -> bool {
        &&& forall|j: int|
            0 <= j < self.misses@.len() ==> (#[trigger] self.misses@[j]) < self.results@.len()
                && self.results@[self.misses@[j] as int] is None
        &&& forall|i: int, j: int|
            0 <= i < j < self.misses@.len() ==> (#[trigger] self.misses@[i]) < (
            #[trigger] self.misses@[j])
        &&& forall|i: int|
            0 <= i < self.results@.len() && (#[trigger] self.results@[i]) is None
                ==> self.misses@.contains(i as usize)
    }
}

/// The bytes that storage found.
pub open spec fn fetched_bytes(fetched: Seq<Fetched>) -> nat
    decreases fetched.len(),
{
    if fetched.len() == 0 {
        0
    } else {
        fetched_bytes(fetched.drop_last()) + found_bytes(fetched.last())
    }
}

/// The bytes that storage found for one key.
pub open spec fn found_bytes(f: Fetched) -> nat {
    match f {
        Ok(Some(x)) => payload(x.0).len(),
        _ => 0,
    }
}

/// The tier after the first `n` answers of storage to a batch of reads.
pub open spec fn after_fetches(
    t: TierView,
    keys: Seq<ObjectKey>,
    misses: Seq<usize>,
    fetched: Seq<Fetched>,
    n: nat,
) -> TierView
    decreases n,
{
    if n == 0 {
        t
    } else {
        after_fetches(t, keys, misses, fetched, (n - 1) as nat).fetched(
            slot(keys[misses[n - 1] as int]@),
            fetched[n - 1],
        )
    }
}

proof fn lemma_fetched(t: TierView, k: Seq<char>, f: Fetched)
    requires
        t.wf(),
    ensures
        t.fetched(k, f).wf(),
        t.fetched(k, f).current <= t.current + found_bytes(f),
{
    match f {
        Ok(Some(x)) => {
            lemma_with_single(t, k, single_entry(payload(x.0), x.1@));
        },
        _ => {},
    }
}

proof fn lemma_fetched_prefix(fetched: Seq<Fetched>, n: int)
    requires
        0 <= n <= fetched.len(),
    ensures
        fetched_bytes(fetched.take(n)) <= fetched_bytes(fetched),
    decreases fetched.len() - n,
{
    if n < fetched.len() {
        lemma_fetched_prefix(fetched, n + 1);
        assert(fetched.take(n + 1).drop_last() =~= fetched.take(n));
    } else {
        assert(fetched.take(n) =~= fetched);
    }
}

/// The answer to key `i` of a batch: what is held here, or what storage found.
pub open spec fn batch_answer(
    r: Fetched,
    found: BatchLookup,
    fetched: Seq<Fetched>,
    i: int,
) -> bool {
    match found.results@[i] {
        Some(x) => r matches Ok(Some(y)) && answers(y, payload(x.0), x.1@),
        None => exists|j: int|
            0 <= j < found.misses@.len() && (#[trigger] found.misses@[j]) == i && (if j
                < fetched.len() {
                handed_on(r, fetched[j])
            } else {
                r matches Ok(None)
            }),
    }
}

impl MemoryTier {
    /// Looks for a batch of objects. What is missing goes to storage, whose answers go to
    /// [`MemoryTier::get_batch_fetched`].
    pub fn get_batch(&mut self, keys: &Vec<ObjectKey>) -> (r: BatchLookup)
        requires
            old(self).inv(),
        ensures
            final(self).inv(),
            final(self)@ == after_reads(old(self)@, keys@, keys@.len()),
            r.wf(),
            r.results@.len() == keys@.len(),
            forall|i: int|
                0 <= i < keys@.len() ==> match lookup(
                    old(self)@.singles,
                    slot((#[trigger] keys@[i])@),
                ) {
                    Some(e) => r.results@[i] is Some && answers(
                        r.results@[i]->0,
                        e.segments[0],
                        e.meta,
                    ),
                    None => r.results@[i] is None,
                },
    {
        let ghost before = self@;
        let mut results: Vec<Option<(Bytes, BlockMeta)>> = Vec::new();
        let mut misses: Vec<usize> = Vec::new();
        let mut i: usize = 0;
        while i < keys.len()
            invariant
                i <= keys.len(),
                self.inv(),
                before.wf(),
                self@ == after_reads(before, keys@, i as nat),
                results.len() == i,
                forall|x: int|
                    0 <= x < i ==> match lookup(before.singles, slot((#[trigger] keys@[x])@)) {
                        Some(e) => results@[x] is Some && answers(
                            results@[x]->0,
                            e.segments[0],
                            e.meta,
                        ),
                        None => results@[x] is None,
                    },
                forall|j: int|
                    0 <= j < misses@.len() ==> (#[trigger] misses@[j]) < i
                        && results@[misses@[j] as int] is None,
                forall|a: int, b: int|
                    0 <= a < b < misses@.len() ==> (#[trigger] misses@[a]) < (
                    #[trigger] misses@[b]),
                forall|x: int|
                    0 <= x < i && (#[trigger] results@[x]) is None ==> misses@.contains(
                        x as usize,
                    ),
            decreases keys.len() - i,
        {
            proof {
                lemma_after_reads(before, keys@, i as nat);
                assert(lookup(self@.singles, slot(keys@[i as int]@)) == lookup(
                    before.singles,
                    slot(keys@[i as int]@),
                ));
            }
            let found = self.get(&keys[i]);
            let ghost results0 = results@;
            let ghost misses0 = misses@;
            if found.is_none() {
                misses.push(i);
            }
            results.push(found);
            proof {
                assert forall|x: int| 0 <= x < i + 1 && (
                #[trigger] results@[x]) is None implies misses@.contains(x as usize) by {
                    if x < i {
                        assert(results0[x] is None);
                        assert(misses0.contains(x as usize));
                        let y = choose|y: int|
                            0 <= y < misses0.len() && misses0[y] == x as usize;
                        assert(misses@[y] == x as usize);
                    } else {
                        assert(misses@[misses0.len() as int] == x as usize);
                    }
                }
                assert forall|j: int| 0 <= j < misses@.len() implies (#[trigger] misses@[j]) < i
                    + 1 && results@[misses@[j] as int] is None by {
                    if j < misses0.len() {
                        assert(misses0[j] < i && results0[misses0[j] as int] is None);
                    }
                }
            }
            i = i + 1;
        }
        BatchLookup { results, misses }
    }

    /// Takes in what storage found for a batch of reads and puts the answers together. A key
    /// that storage does not answer has no object.
    pub fn get_batch_fetched(
        &mut self,
        keys: &Vec<ObjectKey>,
        found: BatchLookup,
        fetched: Vec<Fetched>,
    ) -> (r: Vec<Fetched>)
        requires
            old(self).inv(),
            found.wf(),
            found.results@.len() == keys@.len(),
            old(self)@.current + fetched_bytes(fetched@) <= u64::MAX,
        ensures
            final(self).inv(),
            final(self)@ == after_fetches(
                old(self)@,
                keys@,
                found.misses@,
                fetched@,
                if fetched@.len() < found.misses@.len() {
                    fetched@.len()
                } else {
                    found.misses@.len()
                },
            ),
            r@.len() == keys@.len(),
            forall|i: int|
                0 <= i < r@.len() ==> batch_answer(#[trigger] r@[i], found, fetched@, i),
    {
        let ghost before = self@;
        let ghost all = fetched@;
        let ghost misses = found.misses@;
        let n: usize = found.misses.len();
        let mut answers_in_order: Vec<Fetched> = Vec::new();
        for f in it: fetched
            invariant
                it.seq() == all,
                misses == found.misses@,
                n == misses.len(),
                found.wf(),
                found.results@.len() == keys@.len(),
                self.inv(),
                before.current + fetched_bytes(all) <= u64::MAX,
                self@.current <= before.current + fetched_bytes(all.take(it.index())),
                self@ == after_fetches(
                    before,
                    keys@,
                    misses,
                    all,
                    if it.index() < n {
                        it.index() as nat
                    } else {
                        n as nat
                    },
                ),
                answers_in_order@.len() == (if it.index() < n {
                    it.index()
                } else {
                    n as int
                }),
                forall|j: int|
                    0 <= j < answers_in_order@.len() ==> handed_on(
                        #[trigger] answers_in_order@[j],
                        all[j],
                    ),
        {
            let j: usize = answers_in_order.len();
            proof {
                assert(all.take(it.index() + 1).drop_last() =~= all.take(it.index()));
                lemma_fetched_prefix(all, it.index() + 1);
                assert(f == all[it.index()]);
            }
            if j < n {
                let idx: usize = found.misses[j];
                proof {
                    assert(idx < found.results@.len());
                    lemma_fetched(self@, slot(keys@[idx as int]@), f);
                }
                let a = self.get_fetched(&keys[idx], f);
                answers_in_order.push(a);
            }
        }
        proof {
            assert(all.take(all.len() as int) =~= all);
        }
        let ghost given = answers_in_order@;
        let ghost results = found.results@;
        let mut out: Vec<Fetched> = Vec::new();
        let mut next: usize = 0;
        let total: usize = found.results.len();
        let mut waiting = answers_in_order;
        for x in it: found.results
            invariant
                it.seq() == results,
                results == found.results@,
                total == results.len(),
                misses == found.misses@,
                n == misses.len(),
                found.wf(),
                out@.len() == it.index(),
                0 <= next <= misses.len(),
                waiting@ == (if next < given.len() {
                    given.skip(next as int)
                } else {
                    Seq::<Fetched>::empty()
                }),
                given.len() == (if all.len() < misses.len() {
                    all.len()
                } else {
                    misses.len()
                }),
                forall|j: int| 0 <= j < given.len() ==> handed_on(#[trigger] given[j], all[j]),
                forall|j: int| 0 <= j < next ==> (#[trigger] misses[j]) < it.index(),
                forall|j: int| next <= j < misses.len() ==> (#[trigger] misses[j]) >= it.index(),
                forall|k: int|
                    0 <= k < out@.len() ==> batch_answer(#[trigger] out@[k], found, all, k),
        {
            let ghost p = it.index();
            match x {
                Some(y) => {
                    proof {
                        assert(results[p] is Some);
                        assert forall|j: int| next <= j < misses.len() implies (
                        #[trigger] misses[j]) >= p + 1 by {
                            assert(found.results@[misses[j] as int] is None);
                        }
                    }
                    out.push(Ok(Some(y)));
                },
                None => {
                    proof {
                        assert(results[p] is None);
                        assert(misses.contains(p as usize));
                        let j = choose|j: int| 0 <= j < misses.len() && misses[j] == p as usize;
                        assert(j >= next);
                        if next < j {
                            assert(misses[next as int] < misses[j]);
                        }
                        assert(misses[next as int] == p);
                        assert forall|j: int| next + 1 <= j < misses.len() implies (
                        #[trigger] misses[j]) >= p + 1 by {
                            assert(misses[next as int] < misses[j]);
                        }
                    }
                    if waiting.len() > 0 {
                        let a = waiting.remove(0);
                        proof {
                            assert(a == given[next as int]);
                            assert(waiting@ =~= (if next + 1 < given.len() {
                                given.skip(next + 1)
                            } else {
                                Seq::<Fetched>::empty()
                            }));
                            assert(handed_on(given[next as int], all[next as int]));
                        }
                        out.push(a);
                    } else {
                        out.push(Ok(None));
                    }
                    next = next + 1;
                },
            }
        }
        out
    }
}

/// The bytes of the objects in a batch.
pub open spec fn batch_bytes(items: Seq<(ObjectKey, Bytes, BlockMeta)>) -> nat
    decreases items.len(),
{
    if items.len() == 0 {
        0
    } else {
        batch_bytes(items.drop_last()) + payload(items.last().1).len()
    }
}

/// The tier after the first `n` writes of a batch, of which storage accepted some.
pub open spec fn after_puts(
    t: TierView,
    items: Seq<(ObjectKey, Bytes, BlockMeta)>,
    accepted: Seq<bool>,
    n: nat,
) -> TierView
    decreases n,
{
    if n == 0 {
        t
    } else {
        let u = after_puts(t, items, accepted, (n - 1) as nat);
        let x = items[n - 1];
        if n - 1 < accepted.len() && accepted[n - 1] {
            u.put(slot(x.0@), payload(x.1), x.2@)
        } else {
            u
        }
    }
}

proof fn lemma_batch_prefix(items: Seq<(ObjectKey, Bytes, BlockMeta)>, n: int)
    requires
        0 <= n <= items.len(),
    ensures
        batch_bytes(items.take(n)) <= batch_bytes(items),
    decreases items.len() - n,
{
    if n < items.len() {
        lemma_batch_prefix(items, n + 1);
        assert(items.take(n + 1).drop_last() =~= items.take(n));
    } else {
        assert(items.take(n) =~= items);
    }
}

impl MemoryTier {
    /// Takes in those objects of a batch that storage has accepted.
    pub fn put_batch(&mut self, items: Vec<(ObjectKey, Bytes, BlockMeta)>, accepted: &Vec<bool>)
        requires
            old(self).inv(),
            old(self)@.current + batch_bytes(items@) <= u64::MAX,
        ensures
            final(self).inv(),
            final(self)@ == after_puts(old(self)@, items@, accepted@, items@.len()),
    {
        let ghost before = self@;
        let ghost all = items@;
        let mut i: usize = 0;
        for x in it: items
            invariant
                it.seq() == all,
                i == (if it.index() < accepted@.len() {
                    it.index()
                } else {
                    accepted@.len() as int
                }),
                self.inv(),
                before.current + batch_bytes(all) <= u64::MAX,
                self@.current <= before.current + batch_bytes(all.take(it.index())),
                self@ == after_puts(before, all, accepted@, it.index() as nat),
        {
            proof {
                assert(all.take(it.index() + 1).drop_last() =~= all.take(it.index()));
                lemma_batch_prefix(all, it.index() + 1);
                assert(x == all[it.index()]);
            }
            if i < accepted.len() {
                if accepted[i] {
                    let (key, data, meta) = x;
                    proof {
                        let k = slot(key@);
                        lemma_invalidated(self@, k);
                        lemma_with_single(
                            self@.invalidated(k),
                            k,
                            single_entry(payload(data), meta@),
                        );
                    }
                    self.put(&key, data, meta);
                }
                i = i + 1;
            }
        }
        proof {
            assert(all.take(all.len() as int) =~= all);
        }
    }
}

} // verus!
