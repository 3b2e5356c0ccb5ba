//! The in-memory tier over a history of calls: what a read gives after any mix of them.
use crate::handlers::same_version;
use crate::memory_tier::{
    bump, counted, evict, evict_freeing, lemma_evict, lemma_evict_freeing, lemma_forced_multi,
    lemma_invalidated, lemma_put, lemma_with_single, lemma_with_slab_object, multi_entry,
    one_buffer, reading_keeps_the_objects, single_entry, TierView,
};
use crate::metadata::MetaView;
use crate::payload::concat;
use crate::recency::{lookup, EntryView};
use vstd::prelude::*;

verus! {

/// A call on the tier, with the handle of the object that it is about.
pub enum TierCall {
    /// `put`, or one accepted object of `put_batch`.
    Put { k: Seq<char>, data: Seq<u8>, meta: MetaView },
    /// `put_chunks`.
    PutChunks { k: Seq<char>, segments: Seq<Seq<u8>>, meta: MetaView, slab: Option<u64> },
    /// `insert_chunks_from_slab`. An empty object is not taken in.
    PutSlab { k: Seq<char>, data: Seq<u8>, meta: MetaView, extent: u64 },
    /// `put_from_gpu`: storage holds `data` from now on.
    PutFromGpu { k: Seq<char>, data: Seq<u8> },
    /// `delete`: storage holds nothing under the key from now on.
    Delete { k: Seq<char> },
    /// `invalidate`: storage keeps what it holds.
    Invalidate { k: Seq<char> },
    /// `get`, or one key of `get_batch`.
    Get { k: Seq<char> },
    /// `get_with_meta`.
    GetVersion { k: Seq<char>, expected: MetaView },
    /// `get_chunks`.
    GetChunks { k: Seq<char> },
    /// `get_chunks_with_meta`.
    GetChunksVersion { k: Seq<char>, expected: MetaView },
    /// `get_chunks_slab`.
    GetSlab { k: Seq<char> },
    /// `get_fetched` with an object that storage found, or one such answer of
    /// `get_batch_fetched`.
    Fetched { k: Seq<char>, data: Seq<u8>, meta: MetaView },
    /// `get_chunks_fetched` with an object that storage found.
    FetchedChunks { k: Seq<char>, segments: Seq<Seq<u8>>, meta: MetaView, slab: Option<u64> },
    /// `evict_chunks_cache_to_free`.
    MakeRoom { need: nat },
    /// `set_rdma_slab`.
    SetSlab { capacity: u64 },
}

impl TierCall {
    /// The call is about this object.
    pub open spec fn is_about(self, j: Seq<char>) -> bool {
        match self {
            TierCall::Put { k, .. } => k == j,
            TierCall::PutChunks { k, .. } => k == j,
            TierCall::PutSlab { k, .. } => k == j,
            TierCall::PutFromGpu { k, .. } => k == j,
            TierCall::Delete { k } => k == j,
            TierCall::Invalidate { k } => k == j,
            TierCall::Get { k } => k == j,
            TierCall::GetVersion { k, .. } => k == j,
            TierCall::GetChunks { k } => k == j,
            TierCall::GetChunksVersion { k, .. } => k == j,
            TierCall::GetSlab { k } => k == j,
            TierCall::Fetched { k, .. } => k == j,
            TierCall::FetchedChunks { k, .. } => k == j,
            TierCall::MakeRoom { .. } => false,
            TierCall::SetSlab { .. } => false,
        }
    }

    /// The bytes under a key after the call, where `before` were under it: a write replaces
    /// them, whichever way it is made.
    pub open spec fn writes(self, j: Seq<char>, before: Option<Seq<u8>>) -> Option<Seq<u8>> {
        if !self.is_about(j) {
            before
        } else {
            match self {
                TierCall::Put { data, .. } => Some(data),
                TierCall::PutChunks { segments, .. } => Some(concat(segments)),
                TierCall::PutSlab { data, .. } => if data.len() > 0 {
                    Some(data)
                } else {
                    before
                },
                TierCall::PutFromGpu { data, .. } => Some(data),
                TierCall::Delete { .. } => None,
                _ => before,
            }
        }
    }

    /// What storage found is what was written last.
    pub open spec fn finds(self, j: Seq<char>, stored: Option<Seq<u8>>) -> bool {
        self.is_about(j) ==> match self {
            TierCall::Fetched { data, .. } => stored == Some(data),
            TierCall::FetchedChunks { segments, .. } => stored == Some(concat(segments)),
            _ => true,
        }
    }
}

/// The tier after a call.
pub open spec fn after_call(t: TierView, c: TierCall) -> TierView {
    match c {
        TierCall::Put { k, data, meta } => t.put(k, data, meta),
        TierCall::PutChunks { k, segments, meta, slab } => t.put_chunks(k, segments, meta, slab),
        TierCall::PutSlab { k, data, meta, extent } => t.with_slab_object(
            k,
            multi_entry(seq![data], meta, Some(extent)),
        ),
        TierCall::PutFromGpu { k, .. } => t.invalidated(k),
        TierCall::Delete { k } => t.invalidated(k),
        TierCall::Invalidate { k } => t.invalidated(k),
        TierCall::Get { k } => if lookup(t.singles, k) is Some {
            t.hit_single(k)
        } else {
            t.missed()
        },
        TierCall::GetVersion { k, expected } => match lookup(t.singles, k) {
            Some(e) => if same_version(e.meta, expected) {
                t.hit_single(k)
            } else {
                t.stale_single(k)
            },
            None => t.missed(),
        },
        TierCall::GetChunks { k } => if lookup(t.multis, k) is Some {
            t.hit_multi(k)
        } else {
            t.missed()
        },
        TierCall::GetChunksVersion { k, expected } => match lookup(t.multis, k) {
            Some(e) => if same_version(e.meta, expected) {
                t.hit_multi(k)
            } else {
                t.stale_multi(k)
            },
            None => t.missed(),
        },
        TierCall::GetSlab { k } => match lookup(t.multis, k) {
            Some(e) => if e.slab is Some {
                t.hit_multi(k)
            } else {
                TierView { hits: t.hits, ..t.hit_multi(k) }
            },
            None => t,
        },
        TierCall::Fetched { k, data, meta } => t.with_single(k, single_entry(data, meta)),
        TierCall::FetchedChunks { k, segments, meta, slab } => t.with_multi(
            k,
            multi_entry(segments, meta, slab),
        ),
        TierCall::MakeRoom { need } => {
            let v = evict_freeing(t.multis, t.current, need as int);
            TierView { multis: v.0, current: v.1, evictions: bump(t.evictions, v.2), ..t }
        },
        TierCall::SetSlab { capacity } => if t.slab_capacity is None {
            TierView { slab_capacity: Some(capacity), ..t }
        } else {
            t
        },
    }
}

/// The tier after a history of calls.
pub open spec fn after_calls(t: TierView, calls: Seq<TierCall>) -> TierView
    decreases calls.len(),
{
    if calls.len() == 0 {
        t
    } else {
        after_call(after_calls(t, calls.drop_last()), calls.last())
    }
}

/// The bytes that were written last under a key, where `first` were under it at the beginning.
pub open spec fn last_write(calls: Seq<TierCall>, k: Seq<char>, first: Option<Seq<u8>>) -> Option<
    Seq<u8>,
>
    decreases calls.len(),
{
    if calls.len() == 0 {
        first
    } else {
        calls.last().writes(k, last_write(calls.drop_last(), k, first))
    }
}

/// Whenever storage was asked for an object, it found what had been written last.
pub open spec fn storage_is_current(
    calls: Seq<TierCall>,
    k: Seq<char>,
    first: Option<Seq<u8>>,
) -> bool {
    forall|i: int|
        0 <= i < calls.len() ==> (#[trigger] calls[i]).finds(
            k,
            last_write(calls.take(i), k, first),
        )
}

/// Either cache gives the bytes written last under a key, or nothing.
pub open spec fn gives(t: TierView, k: Seq<char>, written: Option<Seq<u8>>) -> bool {
    &&& match lookup(t.singles, k) {
        Some(e) => written == Some(e.segments[0]),
        None => true,
    }
    &&& match lookup(t.multis, k) {
        Some(e) => written == Some(concat(e.segments)),
        None => true,
    }
}

/// What is held of an object is what was held before, or it is no longer held.
pub open spec fn kept_or_dropped(before: TierView, after: TierView, k: Seq<char>) -> bool {
    &&& lookup(after.singles, k) is Some ==> lookup(after.singles, k) == lookup(before.singles, k)
    &&& lookup(after.multis, k) is Some ==> lookup(after.multis, k) == lookup(before.multis, k)
}

proof fn lemma_single_and_others(t: TierView, k: Seq<char>, e: EntryView, j: Seq<char>)
    requires
        t.wf(),
        one_buffer(e),
        j != k,
    ensures
        kept_or_dropped(t, t.with_single(k, e), j),
{
    if e.total <= t.capacity {
        lemma_invalidated(t, k);
        let u = t.invalidated(k);
        let v = evict(u.singles, u.current, e.total, t.capacity);
        lemma_evict(u.singles, u.current, e.total, t.capacity);
        if lookup(v.0, k) is Some {
            assert(lookup(u.singles, k) == lookup(v.0, k));
        }
        lemma_put(v.0, k, e);
        let r = t.with_single(k, e);
        if lookup(r.singles, j) is Some {
            assert(lookup(v.0, j) == lookup(r.singles, j));
            assert(lookup(u.singles, j) == lookup(v.0, j));
        }
        assert(lookup(u.multis, j) == lookup(t.multis, j));
    }
}

proof fn lemma_multi_and_others(
    t: TierView,
    k: Seq<char>,
    e: EntryView,
    budget: nat,
    j: Seq<char>,
)
    requires
        t.wf(),
        counted(e),
        j != k,
    ensures
        kept_or_dropped(t, t.forced_multi(k, e, budget), j),
{
    lemma_invalidated(t, k);
    let u = t.invalidated(k);
    let v = evict(u.multis, u.current, e.total, budget);
    lemma_evict(u.multis, u.current, e.total, budget);
    if lookup(v.0, k) is Some {
        assert(lookup(u.multis, k) == lookup(v.0, k));
    }
    lemma_put(v.0, k, e);
    let r = t.forced_multi(k, e, budget);
    if lookup(r.multis, j) is Some {
        assert(lookup(v.0, j) == lookup(r.multis, j));
        assert(lookup(u.multis, j) == lookup(v.0, j));
    }
    assert(lookup(u.singles, j) == lookup(t.singles, j));
}

proof fn lemma_slab_and_others(t: TierView, k: Seq<char>, e: EntryView, j: Seq<char>)
    requires
        t.wf(),
        counted(e),
        j != k,
    ensures
        kept_or_dropped(t, t.with_slab_object(k, e), j),
{
    if e.total > 0 {
        if t.slab_budget() > 0 {
            lemma_multi_and_others(t, k, e, t.slab_budget(), j);
        } else {
            lemma_invalidated(t, k);
            let u = t.invalidated(k);
            lemma_put(u.multis, k, e);
            let r = t.with_slab_object(k, e);
            if lookup(r.multis, j) is Some {
                assert(lookup(u.multis, j) == lookup(r.multis, j));
            }
            assert(lookup(u.singles, j) == lookup(t.singles, j));
        }
    }
}

proof fn lemma_one_segment(data: Seq<u8>)
    ensures
        concat(seq![data]) == data,
{
    reveal_with_fuel(concat, 2);
    assert(seq![data].drop_last() =~= Seq::<Seq<u8>>::empty());
    assert(concat(seq![data]) =~= data);
}

/// A call keeps what holds of every tier, and changes what is held of an object that it does not
/// write only by dropping it.
proof fn lemma_call(t: TierView, c: TierCall, j: Seq<char>)
    requires
        t.wf(),
    ensures
        after_call(t, c).wf(),
        !c.is_about(j) ==> kept_or_dropped(t, after_call(t, c), j),
{
    match c {
        TierCall::Put { k, data, meta } => {
            lemma_invalidated(t, k);
            let u = t.invalidated(k);
            lemma_with_single(u, k, single_entry(data, meta));
            if j != k {
                lemma_single_and_others(u, k, single_entry(data, meta), j);
                assert(lookup(u.singles, j) == lookup(t.singles, j));
                assert(lookup(u.multis, j) == lookup(t.multis, j));
            }
        },
        TierCall::PutChunks { k, segments, meta, slab } => {
            lemma_invalidated(t, k);
            let u = t.invalidated(k);
            let e = multi_entry(segments, meta, slab);
            lemma_forced_multi(u, k, e, u.capacity);
            if j != k {
                lemma_multi_and_others(u, k, e, u.capacity, j);
                assert(lookup(u.singles, j) == lookup(t.singles, j));
                assert(lookup(u.multis, j) == lookup(t.multis, j));
            }
        },
        TierCall::PutSlab { k, data, meta, extent } => {
            let e = multi_entry(seq![data], meta, Some(extent));
            lemma_with_slab_object(t, k, e);
            if j != k {
                lemma_slab_and_others(t, k, e, j);
            }
        },
        TierCall::PutFromGpu { k, .. } => {
            lemma_invalidated(t, k);
            assert(j != k ==> lookup(t.invalidated(k).singles, j) == lookup(t.singles, j));
        },
        TierCall::Delete { k } => {
            lemma_invalidated(t, k);
        },
        TierCall::Invalidate { k } => {
            lemma_invalidated(t, k);
        },
        TierCall::Get { k } => {
            reading_keeps_the_objects(t, k);
        },
        TierCall::GetVersion { k, .. } => {
            reading_keeps_the_objects(t, k);
        },
        TierCall::GetChunks { k } => {
            reading_keeps_the_objects(t, k);
        },
        TierCall::GetChunksVersion { k, .. } => {
            reading_keeps_the_objects(t, k);
        },
        TierCall::GetSlab { k } => {
            reading_keeps_the_objects(t, k);
        },
        TierCall::Fetched { k, data, meta } => {
            lemma_with_single(t, k, single_entry(data, meta));
            if j != k {
                lemma_single_and_others(t, k, single_entry(data, meta), j);
            }
        },
        TierCall::FetchedChunks { k, segments, meta, slab } => {
            let e = multi_entry(segments, meta, slab);
            lemma_forced_multi(t, k, e, t.capacity);
            if j != k {
                lemma_multi_and_others(t, k, e, t.capacity, j);
            }
        },
        TierCall::MakeRoom { need } => {
            lemma_room(t, need, j);
        },
        TierCall::SetSlab { .. } => {},
    }
}

proof fn lemma_room(t: TierView, need: nat, j: Seq<char>)
    requires
        t.wf(),
    ensures
        after_call(t, TierCall::MakeRoom { need }).wf(),
        kept_or_dropped(t, after_call(t, TierCall::MakeRoom { need }), j),
{
    lemma_evict_freeing(t.multis, t.current, need as int);
    let v = evict_freeing(t.multis, t.current, need as int);
    let r = after_call(t, TierCall::MakeRoom { need });
    assert forall|i: Seq<char>| #[trigger] lookup(r.singles, i) is None || lookup(
        r.multis,
        i,
    ) is None by {
        if lookup(r.multis, i) is Some {
            assert(lookup(t.multis, i) == lookup(r.multis, i));
            assert(lookup(t.singles, i) is None || lookup(t.multis, i) is None);
        }
    }
    assert forall|i: int| 0 <= i < r.multis.len() implies counted((#[trigger] r.multis[i]).1) by {
        assert(r.multis[i] == t.multis[i + v.2]);
    }
    if lookup(r.multis, j) is Some {
        assert(lookup(t.multis, j) == lookup(r.multis, j));
    }
}

/// A call on an object leaves either cache with what was written last, or with nothing.
proof fn lemma_call_on_object(t: TierView, c: TierCall, k: Seq<char>, written: Option<Seq<u8>>)
    requires
        t.wf(),
        c.is_about(k),
        gives(t, k, written),
        c.finds(k, written),
    ensures
        gives(after_call(t, c), k, c.writes(k, written)),
{
    match c {
        TierCall::Put { data, meta, .. } => {
            lemma_invalidated(t, k);
            lemma_with_single(t.invalidated(k), k, single_entry(data, meta));
        },
        TierCall::PutChunks { segments, meta, slab, .. } => {
            lemma_invalidated(t, k);
            let u = t.invalidated(k);
            lemma_forced_multi(u, k, multi_entry(segments, meta, slab), u.capacity);
        },
        TierCall::PutSlab { data, meta, extent, .. } => {
            lemma_one_segment(data);
            lemma_with_slab_object(t, k, multi_entry(seq![data], meta, Some(extent)));
        },
        TierCall::PutFromGpu { .. } => {
            lemma_invalidated(t, k);
        },
        TierCall::Delete { .. } => {
            lemma_invalidated(t, k);
        },
        TierCall::Invalidate { .. } => {
            lemma_invalidated(t, k);
        },
        TierCall::Fetched { data, meta, .. } => {
            lemma_with_single(t, k, single_entry(data, meta));
        },
        TierCall::FetchedChunks { segments, meta, slab, .. } => {
            lemma_forced_multi(t, k, multi_entry(segments, meta, slab), t.capacity);
        },
        _ => {
            reading_keeps_the_objects(t, k);
            assert(lookup(after_call(t, c).singles, k) == lookup(t.singles, k));
            assert(lookup(after_call(t, c).multis, k) == lookup(t.multis, k));
        },
    }
}

/// After any history of calls, on this object and on others, either cache gives the bytes that
/// were written last under a key, or nothing: never older ones, whichever way they were written
/// and read.
pub proof fn reads_give_the_last_write(
    t: TierView,
    calls: Seq<TierCall>,
    k: Seq<char>,
    first: Option<Seq<u8>>,
)
    requires
        t.wf(),
        gives(t, k, first),
        storage_is_current(calls, k, first),
    ensures
        after_calls(t, calls).wf(),
        gives(after_calls(t, calls), k, last_write(calls, k, first)),
    decreases calls.len(),
{
    if calls.len() > 0 {
        let before = calls.drop_last();
        let c = calls.last();
        assert(calls.take(calls.len() - 1) =~= before);
        assert(calls[calls.len() - 1].finds(k, last_write(before, k, first)));
        assert forall|i: int| 0 <= i < before.len() implies (#[trigger] before[i]).finds(
            k,
            last_write(before.take(i), k, first),
        ) by {
            assert(before.take(i) =~= calls.take(i));
            assert(calls[i].finds(k, last_write(calls.take(i), k, first)));
        }
        reads_give_the_last_write(t, before, k, first);
        let u = after_calls(t, before);
        lemma_call(u, c, k);
        if c.is_about(k) {
            lemma_call_on_object(u, c, k, last_write(before, k, first));
        }
    }
}

/// Calls about other objects change what is held of an object only by dropping it.
pub proof fn other_calls_only_drop(t: TierView, calls: Seq<TierCall>, k: Seq<char>)
    requires
        t.wf(),
        forall|i: int| 0 <= i < calls.len() ==> !(#[trigger] calls[i]).is_about(k),
    ensures
        after_calls(t, calls).wf(),
        kept_or_dropped(t, after_calls(t, calls), k),
    decreases calls.len(),
{
    if calls.len() > 0 {
        let before = calls.drop_last();
        assert forall|i: int| 0 <= i < before.len() implies !(#[trigger] before[i]).is_about(k) by {
            assert(before[i] == calls[i]);
        }
        other_calls_only_drop(t, before, k);
        lemma_call(after_calls(t, before), calls.last(), k);
    }
}

} // verus!
