//! Stable sorting by an integer key.

use vstd::prelude::*;

verus! {

/// Where an item with key `k` goes among the first `pos` items of `s`: behind every item up to the
/// last one whose key is not greater.
pub open spec fn place<T>(s: Seq<T>, key: spec_fn(T) -> int, k: int, pos: int) -> int
    decreases pos,
{
    if pos > 0 && k < key(s[pos - 1]) {
        place(s, key, k, pos - 1)
    } else {
        pos
    }
}

/// `s` with `x` put behind every item whose key is not greater.
pub open spec fn put<T>(s: Seq<T>, key: spec_fn(T) -> int, x: T) -> Seq<T> {
    s.insert(place(s, key, key(x), s.len() as int), x)
}

/// The items of `s` by ascending key, items with equal keys in their order in `s`.
pub open spec fn stable_sort<T>(s: Seq<T>, key: spec_fn(T) -> int) -> Seq<T>
    decreases s.len(),
{
    if s.len() == 0 {
        s
    } else {
        put(stable_sort(s.drop_last(), key), key, s.last())
    }
}

pub open spec fn ascending<T>(s: Seq<T>, key: spec_fn(T) -> int) -> bool {
    forall|i: int, j: int| 0 <= i <= j < s.len() ==> key(#[trigger] s[i]) <= key(#[trigger] s[j])
}

pub proof fn lemma_place<T>(s: Seq<T>, key: spec_fn(T) -> int, k: int, pos: int)
    requires
        0 <= pos <= s.len(),
    ensures
        0 <= place(s, key, k, pos) <= pos,
        forall|i: int| place(s, key, k, pos) <= i < pos ==> k < key(#[trigger] s[i]),
        place(s, key, k, pos) > 0 ==> key(s[place(s, key, k, pos) - 1]) <= k,
    decreases pos,
{
    if pos > 0 && k < key(s[pos - 1]) {
        lemma_place(s, key, k, pos - 1);
    }
}

pub proof fn lemma_put_len<T>(s: Seq<T>, key: spec_fn(T) -> int, x: T)
    ensures
        put(s, key, x).len() == s.len() + 1,
{
    lemma_place(s, key, key(x), s.len() as int);
}

/// Putting an item into an ascending sequence keeps it ascending.
pub proof fn law_put_ascending<T>(s: Seq<T>, key: spec_fn(T) -> int, x: T)
    requires
        ascending(s, key),
    ensures
        ascending(put(s, key, x), key),
{
    lemma_place(s, key, key(x), s.len() as int);
    let p = place(s, key, key(x), s.len() as int);
    let t = put(s, key, x);
    assert forall|i: int, j: int| 0 <= i <= j < t.len() implies key(#[trigger] t[i]) <= key(
        #[trigger] t[j],
    ) by {
        if i < p && j == p {
            assert(key(s[i]) <= key(s[p - 1]));
        } else if i < p && j > p {
            assert(key(s[i]) <= key(s[j - 1]));
        } else if i == p && j > p {
            assert(key(x) < key(s[j - 1]));
        } else if i > p {
            assert(key(s[i - 1]) <= key(s[j - 1]));
        } else if j < p {
            assert(key(s[i]) <= key(s[j]));
        }
    }
}

proof fn lemma_put_multiset<T>(s: Seq<T>, key: spec_fn(T) -> int, x: T)
    ensures
        put(s, key, x).to_multiset() == s.to_multiset().insert(x),
{
    broadcast use vstd::seq_lib::group_to_multiset_ensures;
    broadcast use vstd::multiset::group_multiset_axioms;

    lemma_place(s, key, key(x), s.len() as int);
    let p = place(s, key, key(x), s.len() as int);
    let t = put(s, key, x);
    assert(t.remove(p) =~= s);
    assert(t[p] == x);
    assert(t.contains(x));
    assert(t.to_multiset().count(x) > 0);
    assert(t.to_multiset() =~= s.to_multiset().insert(x));
}

/// Sorting gives an ascending sequence of the same items.
pub proof fn law_stable_sort<T>(s: Seq<T>, key: spec_fn(T) -> int)
    ensures
        ascending(stable_sort(s, key), key),
        stable_sort(s, key).to_multiset() == s.to_multiset(),
        stable_sort(s, key).len() == s.len(),
    decreases s.len(),
{
    broadcast use vstd::seq_lib::group_to_multiset_ensures;
    broadcast use vstd::multiset::group_multiset_axioms;

    if s.len() > 0 {
        law_stable_sort(s.drop_last(), key);
        law_put_ascending(stable_sort(s.drop_last(), key), key, s.last());
        lemma_put_multiset(stable_sort(s.drop_last(), key), key, s.last());
        lemma_put_len(stable_sort(s.drop_last(), key), key, s.last());
        assert(s.drop_last().push(s.last()) =~= s);
    }
}

/// Whether an item has key `k`.
pub open spec fn key_is<T>(key: spec_fn(T) -> int, k: int) -> spec_fn(T) -> bool {
    |x: T| key(x) == k
}

/// The items of `s` with key `k`, in order.
pub open spec fn with_key<T>(s: Seq<T>, key: spec_fn(T) -> int, k: int) -> Seq<T> {
    s.filter(key_is(key, k))
}

proof fn lemma_filter_middle<T>(lo: Seq<T>, x: T, hi: Seq<T>, pred: spec_fn(T) -> bool)
    requires
        pred(x) ==> forall|i: int| 0 <= i < hi.len() ==> !pred(#[trigger] hi[i]),
    ensures
        (lo + seq![x] + hi).filter(pred) == (if pred(x) {
            (lo + hi).filter(pred).push(x)
        } else {
            (lo + hi).filter(pred)
        }),
{
    Seq::filter_distributes_over_add(lo, hi, pred);
    Seq::filter_distributes_over_add(lo + seq![x], hi, pred);
    Seq::filter_distributes_over_add(lo, seq![x], pred);
    lemma_filter_one(x, pred);
    let a = lo.filter(pred);
    let b = hi.filter(pred);
    if pred(x) {
        lemma_filter_none(hi, pred);
        assert(a + seq![x] + b =~= (a + b).push(x));
    } else {
        assert(a + Seq::<T>::empty() + b =~= a + b);
    }
}

proof fn lemma_put_stable<T>(s: Seq<T>, key: spec_fn(T) -> int, x: T, k: int)
    ensures
        with_key(put(s, key, x), key, k) == (if key(x) == k {
            with_key(s, key, k).push(x)
        } else {
            with_key(s, key, k)
        }),
{
    lemma_place(s, key, key(x), s.len() as int);
    let p = place(s, key, key(x), s.len() as int);
    let pred = key_is(key, k);
    let lo = s.take(p);
    let hi = s.skip(p);
    assert(s =~= lo + hi);
    assert(put(s, key, x) =~= lo + seq![x] + hi);
    if pred(x) {
        assert forall|i: int| 0 <= i < hi.len() implies !pred(#[trigger] hi[i]) by {
            assert(key(x) < key(s[p + i]));
        }
    }
    lemma_filter_middle(lo, x, hi, pred);
}

proof fn lemma_filter_one<T>(x: T, pred: spec_fn(T) -> bool)
    ensures
        seq![x].filter(pred) == (if pred(x) {
            seq![x]
        } else {
            Seq::<T>::empty()
        }),
{
    reveal_with_fuel(Seq::filter, 2);
    assert(seq![x].drop_last() =~= Seq::<T>::empty());
    assert(seq![x].filter(pred) =~= (if pred(x) {
        seq![x]
    } else {
        Seq::<T>::empty()
    }));
}

proof fn lemma_filter_none<T>(s: Seq<T>, pred: spec_fn(T) -> bool)
    requires
        forall|i: int| 0 <= i < s.len() ==> !pred(#[trigger] s[i]),
    ensures
        s.filter(pred) == Seq::<T>::empty(),
    decreases s.len(),
{
    reveal_with_fuel(Seq::filter, 1);
    if s.len() > 0 {
        assert forall|i: int| 0 <= i < s.drop_last().len() implies !pred(
            #[trigger] s.drop_last()[i],
        ) by {
            assert(!pred(s[i]));
        }
        lemma_filter_none(s.drop_last(), pred);
        assert(!pred(s[s.len() - 1]));
    }
}

/// Sorting keeps items with equal keys in their order.
pub proof fn law_stable_sort_keeps_ties<T>(s: Seq<T>, key: spec_fn(T) -> int, k: int)
    ensures
        with_key(stable_sort(s, key), key, k) == with_key(s, key, k),
    decreases s.len(),
{
    if s.len() > 0 {
        law_stable_sort_keeps_ties(s.drop_last(), key, k);
        lemma_put_stable(stable_sort(s.drop_last(), key), key, s.last(), k);
        reveal_with_fuel(Seq::filter, 1);
    }
}

/// The key of a pair: its first component.
pub open spec fn first_i64() -> spec_fn((i64, u32)) -> int {
    |p: (i64, u32)| p.0 as int
}

/// The key of a pair: its first component.
pub open spec fn first_u32() -> spec_fn((u32, u32)) -> int {
    |p: (u32, u32)| p.0 as int
}

/// Sorts by the first component, ascending and stable.
pub fn sort_by_i64(items: &Vec<(i64, u32)>) -> (out: Vec<(i64, u32)>)
    ensures
        out@ == stable_sort(items@, first_i64()),
{
    let ghost key = first_i64();
    let mut out: Vec<(i64, u32)> = Vec::with_capacity(items.len());
    for i in 0..items.len()
        invariant
            key == first_i64(),
            out@ == stable_sort(items@.take(i as int), key),
            out.len() == i,
    {
        let x: (i64, u32) = items[i];
        let mut pos: usize = out.len();
        while pos > 0 && x.0 < out[pos - 1].0
            invariant
                key == first_i64(),
                pos <= out.len(),
                place(out@, key, x.0 as int, out.len() as int) == place(
                    out@,
                    key,
                    x.0 as int,
                    pos as int,
                ),
            decreases pos,
        {
            pos = pos - 1;
        }
        proof {
            assert(items@.take(i + 1).drop_last() =~= items@.take(i as int));
            lemma_put_len(out@, key, x);
        }
        out.insert(pos, x);
    }
    assert(items@.take(items.len() as int) =~= items@);
    out
}

/// Sorts by the first component, ascending and stable.
pub fn sort_by_u32(items: &Vec<(u32, u32)>) -> (out: Vec<(u32, u32)>)
    ensures
        out@ == stable_sort(items@, first_u32()),
{
    let ghost key = first_u32();
    let mut out: Vec<(u32, u32)> = Vec::with_capacity(items.len());
    for i in 0..items.len()
        invariant
            key == first_u32(),
            out@ == stable_sort(items@.take(i as int), key),
            out.len() == i,
    {
        let x: (u32, u32) = items[i];
        let mut pos: usize = out.len();
        while pos > 0 && x.0 < out[pos - 1].0
            invariant
                key == first_u32(),
                pos <= out.len(),
                place(out@, key, x.0 as int, out.len() as int) == place(
                    out@,
                    key,
                    x.0 as int,
                    pos as int,
                ),
            decreases pos,
        {
            pos = pos - 1;
        }
        proof {
            assert(items@.take(i + 1).drop_last() =~= items@.take(i as int));
            lemma_put_len(out@, key, x);
        }
        out.insert(pos, x);
    }
    assert(items@.take(items.len() as int) =~= items@);
    out
}

} // verus!
