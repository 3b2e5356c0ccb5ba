//! Putting lists in order.
use vstd::prelude::*;

verus! {

/// What can be put in order.
pub trait Ranked: Sized {
    /// Whether `self` belongs strictly behind `other`.
    spec fn after(&self, other: &Self) -> bool;

    fn is_after(&self, other: &Self) -> (r: bool)
        ensures
            r == self.after(other),
    ;

    /// The order is a total one, up to elements of equal rank.
    proof fn lemma_rank(a: &Self, b: &Self, c: &Self)
        ensures
            !a.after(a),
            a.after(b) ==> !b.after(a),
            !a.after(b) && !b.after(c) ==> !a.after(c),
    ;
}

/// `x` put into an ordered list, behind all that do not belong behind it.
pub open spec fn placed<T: Ranked>(s: Seq<T>, x: T) -> Seq<T>
    decreases s.len(),
{
    if s.len() == 0 || !s.last().after(&x) {
        s.push(x)
    } else {
        placed(s.drop_last(), x).push(s.last())
    }
}

/// The list in order; elements of equal rank keep theirs.
pub open spec fn arranged<T: Ranked>(s: Seq<T>) -> Seq<T>
    decreases s.len(),
{
    if s.len() == 0 {
        s
    } else {
        placed(arranged(s.drop_last()), s.last())
    }
}

/// No element stands before one that it belongs behind.
pub open spec fn ordered<T: Ranked>(s: Seq<T>) -> bool {
    forall|i: int, j: int| #![trigger s[i], s[j]]
        0 <= i <= j < s.len() ==> !s[i].after(&s[j])
}

proof fn lemma_placed<T: Ranked>(s: Seq<T>, x: T)
    requires
        ordered(s),
    ensures
        ordered(placed(s, x)),
        placed(s, x).to_multiset() == s.to_multiset().insert(x),
        forall|i: int|
            0 <= i < placed(s, x).len() ==> (#[trigger] placed(s, x)[i]) == x || s.contains(
                placed(s, x)[i],
            ),
        placed(s, x).len() == s.len() + 1,
    decreases s.len(),
{
    broadcast use vstd::seq_lib::group_to_multiset_ensures;

    T::lemma_rank(&x, &x, &x);
    if s.len() == 0 || !s.last().after(&x) {
        let p = s.push(x);
        assert forall|i: int, j: int| #![trigger p[i], p[j]] 0 <= i <= j < p.len() implies !p[i].after(&p[j]) by {
            if j == s.len() && i < j {
                assert(!s[i].after(&s[s.len() - 1]));
                T::lemma_rank(&s[i], &s.last(), &x);
            } else if i < s.len() {
                assert(!s[i].after(&s[j]));
            }
        }
    } else {
        let f = s.drop_last();
        assert(ordered(f)) by {
            assert forall|i: int, j: int| #![trigger f[i], f[j]] 0 <= i <= j < f.len() implies !f[i].after(&f[j]) by {
                assert(!s[i].after(&s[j]));
            }
        }
        lemma_placed(f, x);
        assert(s =~= f.push(s.last()));
        let p = placed(f, x);
        T::lemma_rank(&s.last(), &x, &x);
        T::lemma_rank(&s.last(), &s.last(), &s.last());
        assert forall|i: int| 0 <= i < p.len() implies !(#[trigger] p[i]).after(&s.last()) by {
            if p[i] != x {
                assert(f.contains(p[i]));
                let k = choose|k: int| 0 <= k < f.len() && f[k] == p[i];
                assert(!s[k].after(&s[s.len() - 1]));
            }
        }
        let q = p.push(s.last());
        assert forall|i: int, j: int| #![trigger q[i], q[j]] 0 <= i <= j < q.len() implies !q[i].after(&q[j]) by {
            if j < p.len() {
                assert(!p[i].after(&p[j]));
            } else if i < p.len() {
                assert(!p[i].after(&s.last()));
            }
        }
        assert(q.to_multiset() =~= s.to_multiset().insert(x));
        assert forall|i: int| 0 <= i < placed(s, x).len() implies (#[trigger] placed(s, x)[i]) == x
            || s.contains(placed(s, x)[i]) by {
            if i < p.len() {
                if p[i] != x {
                    assert(f.contains(p[i]));
                    let k = choose|k: int| 0 <= k < f.len() && f[k] == p[i];
                    assert(s[k] == p[i]);
                }
            } else {
                assert(s[s.len() - 1] == s.last());
            }
        }
    }
}

/// Ordering a list leaves its elements as they are and puts them in order.
pub proof fn ordering_keeps_the_elements<T: Ranked>(s: Seq<T>)
    ensures
        ordered(arranged(s)),
        arranged(s).to_multiset() == s.to_multiset(),
        arranged(s).len() == s.len(),
    decreases s.len(),
{
    broadcast use vstd::seq_lib::group_to_multiset_ensures;

    if s.len() > 0 {
        ordering_keeps_the_elements(s.drop_last());
        lemma_placed(arranged(s.drop_last()), s.last());
        assert(s =~= s.drop_last().push(s.last()));
    }
}

proof fn lemma_increasing(s: Seq<int>, i: int)
    requires
        0 <= i < s.len(),
        forall|k: int| 0 <= k < s.len() ==> 0 <= (#[trigger] s[k]) < s.len(),
        forall|a: int, b: int| 0 <= a < b < s.len() ==> (#[trigger] s[a]) < (#[trigger] s[b]),
    ensures
        s[i] == i,
{
    lemma_at_least(s, i);
    lemma_at_most(s, i);
}

proof fn lemma_at_least(s: Seq<int>, i: int)
    requires
        0 <= i < s.len(),
        0 <= s[0],
        forall|a: int, b: int| 0 <= a < b < s.len() ==> (#[trigger] s[a]) < (#[trigger] s[b]),
    ensures
        s[i] >= i,
    decreases i,
{
    if i > 0 {
        lemma_at_least(s, i - 1);
        assert(s[i - 1] < s[i]);
    }
}

proof fn lemma_at_most(s: Seq<int>, i: int)
    requires
        0 <= i < s.len(),
        s[s.len() - 1] < s.len(),
        forall|a: int, b: int| 0 <= a < b < s.len() ==> (#[trigger] s[a]) < (#[trigger] s[b]),
    ensures
        s[i] <= i,
    decreases s.len() - i,
{
    if i + 1 < s.len() {
        lemma_at_most(s, i + 1);
        assert(s[i] < s[i + 1]);
    }
}

/// Elements that are numbered from zero on, each number once, stand at their numbers once the
/// list is in order; they are the elements of the list.
pub proof fn numbered_elements_find_their_places<T: Ranked>(s: Seq<T>, number: spec_fn(T) -> int)
    requires
        forall|a: T, b: T| #[trigger] a.after(&b) == (number(a) > number(b)),
        forall|i: int| 0 <= i < s.len() ==> 0 <= number(#[trigger] s[i]) < s.len(),
        forall|i: int, j: int|
            0 <= i < j < s.len() ==> number(#[trigger] s[i]) != number(#[trigger] s[j]),
    ensures
        arranged(s).len() == s.len(),
        forall|i: int| 0 <= i < s.len() ==> number(#[trigger] arranged(s)[i]) == i,
        forall|i: int| 0 <= i < s.len() ==> s.contains(#[trigger] arranged(s)[i]),
{
    broadcast use vstd::seq_lib::group_to_multiset_ensures;

    let r = arranged(s);
    ordering_keeps_the_elements(s);
    assert forall|i: int, j: int| 0 <= i < s.len() && 0 <= j < s.len() && i != j implies s[i]
        != s[j] by {
        if i < j {
            assert(number(s[i]) != number(s[j]));
        } else {
            assert(number(s[j]) != number(s[i]));
        }
    }
    s.lemma_multiset_has_no_duplicates();
    r.lemma_multiset_has_no_duplicates_conv();
    assert forall|i: int| 0 <= i < r.len() implies s.contains(#[trigger] r[i]) by {
        assert(r.contains(r[i]));
        assert(r.to_multiset().count(r[i]) > 0);
    }
    let n = r.map_values(number);
    assert forall|a: int, b: int| 0 <= a < b < n.len() implies (#[trigger] n[a]) < (
    #[trigger] n[b]) by {
        assert(!r[a].after(&r[b]));
        assert(r[a] != r[b]);
        assert(s.contains(r[a]) && s.contains(r[b]));
        let x = choose|x: int| 0 <= x < s.len() && s[x] == r[a];
        let y = choose|y: int| 0 <= y < s.len() && s[y] == r[b];
        if x < y {
            assert(number(s[x]) != number(s[y]));
        } else {
            assert(number(s[y]) != number(s[x]));
        }
    }
    assert forall|k: int| 0 <= k < n.len() implies 0 <= (#[trigger] n[k]) < n.len() by {
        assert(s.contains(r[k]));
        let x = choose|x: int| 0 <= x < s.len() && s[x] == r[k];
        assert(0 <= number(s[x]) < s.len());
    }
    assert forall|i: int| 0 <= i < s.len() implies number(#[trigger] r[i]) == i by {
        lemma_increasing(n, i);
    }
}

fn place<T: Ranked>(out: &mut Vec<T>, x: T)
    ensures
        final(out)@ == placed(old(out)@, x),
{
    let ghost s = out@;
    let mut i: usize = out.len();
    while i > 0 && out[i - 1].is_after(&x)
        invariant
            i <= out.len(),
            out@ == s,
            forall|k: int| i <= k < s.len() ==> (#[trigger] s[k]).after(&x),
        decreases i,
    {
        i = i - 1;
    }
    proof {
        lemma_placed_at(s, x, i as int);
    }
    out.insert(i, x);
}

proof fn lemma_placed_at<T: Ranked>(s: Seq<T>, x: T, i: int)
    requires
        0 <= i <= s.len(),
        i > 0 ==> !s[i - 1].after(&x),
        forall|k: int| i <= k < s.len() ==> (#[trigger] s[k]).after(&x),
    ensures
        placed(s, x) == s.insert(i, x),
    decreases s.len(),
{
    if i == s.len() {
        assert(s.insert(i, x) =~= s.push(x));
    } else {
        assert(s[s.len() - 1].after(&x));
        lemma_placed_at(s.drop_last(), x, i);
        assert(s.insert(i, x) =~= s.drop_last().insert(i, x).push(s.last()));
    }
}

/// Puts a list in order; elements of equal rank keep theirs.
pub fn arrange<T: Ranked>(v: Vec<T>) -> (r: Vec<T>)
    ensures
        r@ == arranged(v@),
        ordered(r@),
        r@.to_multiset() == v@.to_multiset(),
{
    let mut out: Vec<T> = Vec::new();
    let ghost all = v@;
    for x in it: v
        invariant
            it.seq() == all,
            out@ == arranged(all.take(it.index())),
    {
        proof {
            assert(all.take(it.index() + 1).drop_last() =~= all.take(it.index()));
        }
        place(&mut out, x);
    }
    proof {
        assert(all.take(all.len() as int) =~= all);
        ordering_keeps_the_elements(all);
    }
    out
}

} // verus!
