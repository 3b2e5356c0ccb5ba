//! The bounded cache (`lru::LruCache`) that the in-memory tier keeps its objects in, and what is
//! known of it.
use crate::metadata::{BlockMeta, MetaView};
use crate::payload::payloads;
use lru::LruCache;
use prost::bytes::Bytes;
use std::num::NonZeroUsize;
use vstd::prelude::*;

verus! {

/// An object held in memory.
pub struct CacheEntry {
    pub segments: Vec<Bytes>,
    pub meta: BlockMeta,
    pub total_size: usize,
    /// The slab extent that the bytes live in, where they do.
    pub slab: Option<u64>,
}

/// Mathematical form of [`CacheEntry`].
#[verifier::ext_equal]
pub struct EntryView {
    pub segments: Seq<Seq<u8>>,
    pub meta: MetaView,
    pub total: nat,
    pub slab: Option<u64>,
}

impl View for CacheEntry {
    type V = EntryView;

    open spec fn view(&self) -> EntryView {
        EntryView {
            segments: payloads(self.segments@),
            meta: self.meta@,
            total: self.total_size as nat,
            slab: self.slab,
        }
    }
}

/// `lru::LruCache`: a map of bounded size that drops the entry used least recently.
#[verifier::external_type_specification]
#[verifier::external_body]
#[verifier::reject_recursive_types(K)]
#[verifier::reject_recursive_types(V)]
#[verifier::reject_recursive_types(S)]
pub struct ExLruCache<K, V, S>(LruCache<K, V, S>);

/// Keys and entries, the one used least recently first.
pub type Recency = Seq<(Seq<char>, EntryView)>;

/// What a cache holds, the entry used least recently first.
pub uninterp spec fn lru_entries(c: LruCache<String, CacheEntry>) -> Seq<(Seq<char>, EntryView)>;

/// The number of entries that a cache was made for.
pub uninterp spec fn lru_limit(c: LruCache<String, CacheEntry>) -> nat;

/// The entry under a key.
pub open spec fn lookup<V>(s: Seq<(Seq<char>, V)>, k: Seq<char>) -> Option<V>
    decreases s.len(),
{
    if s.len() == 0 {
        None
    } else if s.last().0 == k {
        Some(s.last().1)
    } else {
        lookup(s.drop_last(), k)
    }
}

/// Everything but the entry under a key, in the same order.
pub open spec fn without<V>(s: Seq<(Seq<char>, V)>, k: Seq<char>) -> Seq<(Seq<char>, V)>
    decreases s.len(),
{
    if s.len() == 0 {
        s
    } else if s.last().0 == k {
        without(s.drop_last(), k)
    } else {
        without(s.drop_last(), k).push(s.last())
    }
}

/// The contents after an entry was put under a key: it is the one used last; what was under the
/// key is gone; where a new key finds the cache full, the entry used least recently is gone.
pub open spec fn after_put<V>(s: Seq<(Seq<char>, V)>, k: Seq<char>, e: V, limit: nat) -> Seq<
    (Seq<char>, V),
> {
    if lookup(s, k) is Some {
        without(s, k).push((k, e))
    } else if s.len() == limit {
        s.skip(1).push((k, e))
    } else {
        s.push((k, e))
    }
}

/// A key and an entry that were taken out.
pub open spec fn popped(p: (String, CacheEntry)) -> (Seq<char>, EntryView) {
    (p.0@, p.1@)
}

/// `LruCache::new`: an empty cache for `limit` entries. The table for them is allocated at
/// once; up to the bound it fits the address space.
#[verifier::external_body]
pub(crate) fn lru_new(limit: usize) -> (r: LruCache<String, CacheEntry>)
    requires
        0 < limit <= usize::MAX / 128,
    ensures
        lru_entries(r).len() == 0,
        lru_limit(r) == limit,
{
    LruCache::new(NonZeroUsize::new(limit).unwrap())
}

/// `LruCache::get`: the entry under a key, which becomes the one used last.
#[verifier::external_body]
pub(crate) fn lru_get<'a>(c: &'a mut LruCache<String, CacheEntry>, k: &String) -> (r: Option<
    &'a CacheEntry,
>)
    ensures
        lru_limit(*final(c)) == lru_limit(*old(c)),
        match lookup(lru_entries(*old(c)), k@) {
            Some(e) => r is Some && r->0@ == e && lru_entries(*final(c)) == without(
                lru_entries(*old(c)),
                k@,
            ).push((k@, e)),
            None => r is None && lru_entries(*final(c)) == lru_entries(*old(c)),
        },
{
    c.get(k)
}

/// `LruCache::pop`: takes the entry under a key out.
#[verifier::external_body]
pub(crate) fn lru_pop(c: &mut LruCache<String, CacheEntry>, k: &String) -> (r: Option<CacheEntry>)
    ensures
        lru_limit(*final(c)) == lru_limit(*old(c)),
        lru_entries(*final(c)) == without(lru_entries(*old(c)), k@),
        match lookup(lru_entries(*old(c)), k@) {
            Some(e) => r is Some && r->0@ == e,
            None => r is None,
        },
{
    c.pop(k)
}

/// `LruCache::pop_lru`: takes the entry used least recently out.
#[verifier::external_body]
pub(crate) fn lru_pop_lru(c: &mut LruCache<String, CacheEntry>) -> (r: Option<(String, CacheEntry)>)
    ensures
        lru_limit(*final(c)) == lru_limit(*old(c)),
        if lru_entries(*old(c)).len() == 0 {
            r is None && lru_entries(*final(c)) == lru_entries(*old(c))
        } else {
            r is Some && popped(r->0) == lru_entries(*old(c))[0] && lru_entries(*final(c))
                == lru_entries(*old(c)).skip(1)
        },
{
    c.pop_lru()
}

/// `LruCache::put`: puts an entry under a key and returns what was there. Where a new key finds
/// the cache full, the entry used least recently is dropped without being returned.
#[verifier::external_body]
pub(crate) fn lru_put(c: &mut LruCache<String, CacheEntry>, k: String, e: CacheEntry) -> (r: Option<
    CacheEntry,
>)
    ensures
        lru_limit(*final(c)) == lru_limit(*old(c)),
        lru_entries(*final(c)) == after_put(
            lru_entries(*old(c)),
            k@,
            e@,
            lru_limit(*old(c)),
        ),
        match lookup(lru_entries(*old(c)), k@) {
            Some(old_entry) => r is Some && r->0@ == old_entry,
            None => r is None,
        },
{
    c.put(k, e)
}

/// `LruCache::contains`: whether there is an entry under a key; its place does not change.
#[verifier::external_body]
pub(crate) fn lru_contains(c: &LruCache<String, CacheEntry>, k: &String) -> (r: bool)
    ensures
        r == (lookup(lru_entries(*c), k@) is Some),
{
    c.contains(k)
}

/// `LruCache::is_empty`.
#[verifier::external_body]
pub(crate) fn lru_is_empty(c: &LruCache<String, CacheEntry>) -> (r: bool)
    ensures
        r == (lru_entries(*c).len() == 0),
{
    c.is_empty()
}

/// The bytes that all entries hold.
pub open spec fn held(s: Recency) -> nat
    decreases s.len(),
{
    if s.len() == 0 {
        0
    } else {
        held(s.drop_last()) + s.last().1.total
    }
}

/// The bytes of an entry that may be missing.
pub open spec fn size_of_entry(e: Option<EntryView>) -> nat {
    match e {
        Some(e) => e.total,
        None => 0,
    }
}

/// No key occurs twice.
pub open spec fn distinct(s: Recency) -> bool {
    forall|i: int, j: int|
        0 <= i < s.len() && 0 <= j < s.len() && (#[trigger] s[i]).0 == (#[trigger] s[j]).0 ==> i
            == j
}

/// A key is found exactly where it occurs.
pub proof fn lemma_lookup(s: Recency, k: Seq<char>)
    ensures
        lookup(s, k) is Some <==> exists|i: int| 0 <= i < s.len() && (#[trigger] s[i]).0 == k,
        lookup(s, k) is Some ==> exists|i: int|
            0 <= i < s.len() && (#[trigger] s[i]).0 == k && s[i].1 == lookup(s, k)->0,
    decreases s.len(),
{
    if s.len() > 0 {
        let n = s.len() - 1;
        lemma_lookup(s.drop_last(), k);
        if s.last().0 == k {
            assert(s[n].0 == k);
        } else {
            if lookup(s.drop_last(), k) is Some {
                let i = choose|i: int|
                    0 <= i < s.drop_last().len() && (#[trigger] s.drop_last()[i]).0 == k
                        && s.drop_last()[i].1 == lookup(s.drop_last(), k)->0;
                assert(s[i].0 == k && s[i].1 == lookup(s, k)->0);
            }
            if exists|i: int| 0 <= i < s.len() && (#[trigger] s[i]).0 == k {
                let i = choose|i: int| 0 <= i < s.len() && (#[trigger] s[i]).0 == k;
                assert(s.drop_last()[i].0 == k);
            }
        }
    }
}

/// Taking a key out leaves every other key as it is.
pub proof fn lemma_without(s: Recency, k: Seq<char>)
    requires
        distinct(s),
    ensures
        distinct(without(s, k)),
        lookup(without(s, k), k) is None,
        forall|j: Seq<char>| j != k ==> #[trigger] lookup(without(s, k), j) == lookup(s, j),
        held(without(s, k)) + size_of_entry(lookup(s, k)) == held(s),
        without(s, k).len() == s.len() - (if lookup(s, k) is Some {
            1int
        } else {
            0
        }),
        forall|i: int| 0 <= i < without(s, k).len() ==> s.contains(#[trigger] without(s, k)[i]),
    decreases s.len(),
{
    if s.len() > 0 {
        let f = s.drop_last();
        assert(distinct(f)) by {
            assert forall|i: int, j: int|
                0 <= i < f.len() && 0 <= j < f.len() && (#[trigger] f[i]).0 == (
                #[trigger] f[j]).0 implies i == j by {
                assert(s[i].0 == s[j].0);
            }
        }
        lemma_without(f, k);
        let w = without(f, k);
        assert forall|i: int| 0 <= i < w.len() implies s.contains(#[trigger] w[i]) by {
            assert(f.contains(w[i]));
            let x = choose|x: int| 0 <= x < f.len() && f[x] == w[i];
            assert(s[x] == w[i]);
        }
        if s.last().0 == k {
            lemma_lookup(f, k);
            if lookup(f, k) is Some {
                let i = choose|i: int| 0 <= i < f.len() && (#[trigger] f[i]).0 == k;
                assert(s[i].0 == s[s.len() - 1].0);
            }
        } else {
            let r = w.push(s.last());
            assert(r.drop_last() =~= w);
            assert forall|j: Seq<char>| j != k implies #[trigger] lookup(r, j) == lookup(s, j) by {
                assert(lookup(w, j) == lookup(f, j));
            }
            assert forall|i: int, j: int|
                0 <= i < r.len() && 0 <= j < r.len() && (#[trigger] r[i]).0 == (
                #[trigger] r[j]).0 implies i == j by {
                if i < w.len() && j < w.len() {
                    assert(w[i].0 == w[j].0);
                } else if i != j {
                    let x = if i < w.len() {
                        i
                    } else {
                        j
                    };
                    assert(f.contains(w[x]));
                    let y = choose|y: int| 0 <= y < f.len() && f[y] == w[x];
                    assert(s[y].0 == s[s.len() - 1].0);
                }
            }
            assert forall|i: int| 0 <= i < r.len() implies s.contains(#[trigger] r[i]) by {
                if i < w.len() {
                    assert(s.contains(w[i]));
                } else {
                    assert(s[s.len() - 1] == s.last());
                }
            }
        }
    }
}

/// Adding an entry under a new key.
pub proof fn lemma_push(s: Recency, k: Seq<char>, e: EntryView)
    requires
        distinct(s),
        lookup(s, k) is None,
    ensures
        distinct(s.push((k, e))),
        lookup(s.push((k, e)), k) == Some(e),
        forall|j: Seq<char>| j != k ==> #[trigger] lookup(s.push((k, e)), j) == lookup(s, j),
        held(s.push((k, e))) == held(s) + e.total,
{
    let r = s.push((k, e));
    assert(r.drop_last() =~= s);
    lemma_lookup(s, k);
    assert forall|i: int, j: int|
        0 <= i < r.len() && 0 <= j < r.len() && (#[trigger] r[i]).0 == (
        #[trigger] r[j]).0 implies i == j by {
        if i < s.len() && j < s.len() {
            assert(s[i].0 == s[j].0);
        } else if i != j {
            let x = if i < s.len() {
                i
            } else {
                j
            };
            assert(s[x].0 == k);
        }
    }
}

/// Dropping the entry used least recently.
pub proof fn lemma_skip(s: Recency)
    requires
        distinct(s),
        s.len() > 0,
    ensures
        distinct(s.skip(1)),
        held(s) == held(s.skip(1)) + s[0].1.total,
        forall|j: Seq<char>|
            lookup(s.skip(1), j) is Some ==> #[trigger] lookup(s, j) == lookup(s.skip(1), j),
        lookup(s.skip(1), s[0].0) is None,
    decreases s.len(),
{
    let r = s.skip(1);
    assert forall|i: int, j: int|
        0 <= i < r.len() && 0 <= j < r.len() && (#[trigger] r[i]).0 == (
        #[trigger] r[j]).0 implies i == j by {
        assert(s[i + 1].0 == s[j + 1].0);
    }
    lemma_lookup(r, s[0].0);
    if lookup(r, s[0].0) is Some {
        let i = choose|i: int| 0 <= i < r.len() && (#[trigger] r[i]).0 == s[0].0;
        assert(s[i + 1].0 == s[0].0);
    }
    if s.len() == 1 {
        assert(s.drop_last() =~= Seq::<(Seq<char>, EntryView)>::empty());
        assert(r =~= Seq::<(Seq<char>, EntryView)>::empty());
        reveal_with_fuel(held, 2);
    } else {
        let f = s.drop_last();
        assert forall|i: int, j: int|
            0 <= i < f.len() && 0 <= j < f.len() && (#[trigger] f[i]).0 == (
            #[trigger] f[j]).0 implies i == j by {
            assert(s[i].0 == s[j].0);
        }
        lemma_skip(f);
        assert(r.drop_last() =~= f.skip(1));
        assert(r.last() == s.last());
        assert forall|j: Seq<char>| lookup(r, j) is Some implies #[trigger] lookup(s, j) == lookup(
            r,
            j,
        ) by {
            if s.last().0 != j {
                assert(lookup(f.skip(1), j) is Some);
                assert(lookup(f, j) == lookup(f.skip(1), j));
            }
        }
    }
}

} // verus!
