//! The order in which nodes are inserted: highest level first, shuffled within a level.
use crate::rng::{xorshift, Rng};
use crate::sort::{
    key_is, law_stable_sort, law_stable_sort_keeps_ties, lemma_place, place, put, stable_sort,
};
use vstd::prelude::*;

verus! {

/// Mixed into the seed of the shuffle.
pub const SHUFFLE_SALT: u64 = 0xA5A5_A5A5_5A5A_5A5A;

/// The ids below `n`, ascending.
pub open spec fn all_ids(n: int) -> Seq<u32> {
    Seq::new(n as nat, |i: int| i as u32)
}

/// `s` with the items at `i` and `j` exchanged.
pub open spec fn swapped(s: Seq<u32>, i: int, j: int) -> Seq<u32> {
    s.update(i, s[j]).update(j, s[i])
}

/// `s` after the positions from `i` down to 1 were each exchanged with a random one not behind it, with
/// a generator in state `x`.
pub open spec fn shuffled(s: Seq<u32>, x: u64, i: int) -> Seq<u32>
    decreases i,
{
    if i <= 0 {
        s
    } else {
        let y = xorshift(x);
        shuffled(swapped(s, i, (y as usize) as int % (i + 1)), y, i - 1)
    }
}

/// Sorts ids by descending level.
pub open spec fn high_first(levels: Seq<u8>) -> spec_fn(u32) -> int {
    |id: u32| -(levels[id as int] as int)
}

/// The insertion order of `n` nodes with the given levels.
pub open spec fn insertion_order(n: int, levels: Seq<u8>, seed: u64) -> Seq<u32> {
    stable_sort(shuffled(all_ids(n), (seed ^ SHUFFLE_SALT) | 1, n - 1), high_first(levels))
}

proof fn lemma_swapped_multiset(s: Seq<u32>, i: int, j: int)
    requires
        0 <= i < s.len(),
        0 <= j < s.len(),
    ensures
        swapped(s, i, j).to_multiset() == s.to_multiset(),
{
    broadcast use vstd::seq_lib::group_to_multiset_ensures;
    broadcast use vstd::multiset::group_multiset_axioms;

    let a = s.update(i, s[j]);
    let b = a.update(j, s[i]);
    vstd::seq_lib::to_multiset_update(s, i, s[j]);
    vstd::seq_lib::to_multiset_update(a, j, s[i]);
    assert(s.contains(s[i]));
    assert(s.to_multiset().count(s[i]) > 0);
    if i == j {
        assert(b =~= s);
    } else {
        assert(a[j] == s[j]);
        assert(b.to_multiset() =~= s.to_multiset());
    }
}

/// Shuffling neither adds nor drops an item.
pub proof fn law_shuffle_is_permutation(s: Seq<u32>, x: u64, i: int)
    requires
        i < s.len(),
    ensures
        shuffled(s, x, i).to_multiset() == s.to_multiset(),
        shuffled(s, x, i).len() == s.len(),
    decreases i,
{
    if i > 0 {
        let y = xorshift(x);
        let j = (y as usize) as int % (i + 1);
        lemma_swapped_multiset(s, i, j);
        law_shuffle_is_permutation(swapped(s, i, j), y, i - 1);
    }
}

/// The insertion order has every id below `n` once, and no node before one of a higher level.
pub proof fn law_insertion_order(n: int, levels: Seq<u8>, seed: u64)
    requires
        0 < n <= 0x1_0000_0000,
    ensures
        ({
            let order = insertion_order(n, levels, seed);
            &&& order.len() == n
            &&& order.no_duplicates()
            &&& forall|k: int| 0 <= k < n ==> (#[trigger] order[k]) < n
            &&& forall|id: u32| id < n ==> #[trigger] order.contains(id)
            &&& forall|a: int, b: int|
                0 <= a <= b < n ==> levels[#[trigger] order[a] as int] >= levels[
                    #[trigger] order[b] as int]
        }),
{
    broadcast use vstd::seq_lib::group_to_multiset_ensures;

    let ids = all_ids(n);
    let x = (seed ^ SHUFFLE_SALT) | 1;
    let mixed = shuffled(ids, x, n - 1);
    let order = insertion_order(n, levels, seed);
    let key = high_first(levels);
    law_shuffle_is_permutation(ids, x, n - 1);
    law_stable_sort(mixed, key);
    assert(order.to_multiset() == ids.to_multiset());
    assert(ids.no_duplicates());
    assert(order.no_duplicates()) by {
        ids.lemma_multiset_has_no_duplicates();
        order.lemma_multiset_has_no_duplicates_conv();
    }
    assert forall|k: int| 0 <= k < n implies (#[trigger] order[k]) < n by {
        assert(order.contains(order[k]));
        assert(order.to_multiset().count(order[k]) > 0);
        assert(ids.contains(order[k]));
    }
    assert forall|id: u32| id < n implies #[trigger] order.contains(id) by {
        assert(ids[id as int] == id);
        assert(ids.contains(id));
        assert(ids.to_multiset().count(id) > 0);
    }
    assert forall|a: int, b: int| 0 <= a <= b < n implies levels[#[trigger] order[a] as int]
        >= levels[#[trigger] order[b] as int] by {
        assert(key(order[a]) <= key(order[b]));
    }
}

/// The ids below `n`, shuffled.
pub fn shuffle(n: usize, seed: u64) -> (order: Vec<u32>)
    requires
        0 < n <= 0x1_0000_0000,
    ensures
        order@ == shuffled(all_ids(n as int), (seed ^ SHUFFLE_SALT) | 1, n - 1),
{
    let mut order: Vec<u32> = Vec::with_capacity(n);
    for k in 0..n
        invariant
            n <= 0x1_0000_0000,
            order@ == all_ids(k as int),
    {
        order.push(k as u32);
        assert(order@ =~= all_ids(k + 1));
    }
    let mut rng: Rng = Rng::new(seed ^ SHUFFLE_SALT);
    let mut i: usize = n - 1;
    let ghost goal = shuffled(order@, rng.0, n - 1);
    while i > 0
        invariant
            i < n,
            order.len() == n,
            goal == shuffled(order@, rng.0, i as int),
        decreases i,
    {
        let j: usize = rng.range(i + 1);
        let ghost before = order@;
        let a: u32 = order[i];
        let b: u32 = order[j];
        order[i] = b;
        order[j] = a;
        assert(order@ =~= swapped(before, i as int, j as int));
        i = i - 1;
    }
    order
}

/// Whether an id has level `l`.
pub open spec fn at_level(levels: Seq<u8>, l: int) -> spec_fn(u32) -> bool {
    |id: u32| levels[id as int] == l
}

/// The ids of `s` with levels from `l` down to 0, highest level first, each level in the order of `s`.
pub open spec fn by_level(s: Seq<u32>, levels: Seq<u8>, l: int) -> Seq<u32>
    decreases l + 1,
{
    if l < 0 {
        Seq::empty()
    } else {
        s.filter(at_level(levels, l)) + by_level(s, levels, l - 1)
    }
}

proof fn lemma_by_level_members(s: Seq<u32>, levels: Seq<u8>, l: int)
    ensures
        forall|k: int|
            0 <= k < by_level(s, levels, l).len() ==> levels[#[trigger] by_level(s, levels, l)[k] as int]
                <= l,
    decreases l + 1,
{
    if l >= 0 {
        lemma_by_level_members(s, levels, l - 1);
        let f = s.filter(at_level(levels, l));
        let out = by_level(s, levels, l);
        lemma_filtered(s, levels, l);
        assert forall|k: int| 0 <= k < out.len() implies levels[#[trigger] out[k] as int] <= l by {
            if k < f.len() {
                assert(out[k] == f[k]);
            } else {
                assert(out[k] == by_level(s, levels, l - 1)[k - f.len()]);
            }
        }
    }
}

proof fn lemma_filtered(s: Seq<u32>, levels: Seq<u8>, l: int)
    ensures
        forall|k: int|
            0 <= k < s.filter(at_level(levels, l)).len() ==> levels[#[trigger] s.filter(
                at_level(levels, l),
            )[k] as int] == l,
{
    broadcast use vstd::seq_lib::group_filter_ensures;

    let f = s.filter(at_level(levels, l));
    assert forall|k: int| 0 <= k < f.len() implies levels[#[trigger] f[k] as int] == l by {
        assert(at_level(levels, l)(f[k]));
    }
}

proof fn lemma_place_is(s: Seq<u32>, key: spec_fn(u32) -> int, k: int, p: int)
    requires
        0 <= p <= s.len(),
        forall|i: int| p <= i < s.len() ==> k < key(#[trigger] s[i]),
        p > 0 ==> key(s[p - 1]) <= k,
    ensures
        place(s, key, k, s.len() as int) == p,
{
    lemma_place(s, key, k, s.len() as int);
    let r = place(s, key, k, s.len() as int);
    if r < p {
        assert(k < key(s[p - 1]));
    }
    if p < r {
        assert(k < key(s[r - 1]));
    }
}

proof fn lemma_by_level_push(s: Seq<u32>, x: u32, levels: Seq<u8>, l: int)
    requires
        levels[x as int] <= l,
    ensures
        by_level(s.push(x), levels, l) == put(by_level(s, levels, l), high_first(levels), x),
    decreases l + 1,
{
    let key = high_first(levels);
    let f = s.filter(at_level(levels, l));
    let rest = by_level(s, levels, l - 1);
    let old = by_level(s, levels, l);
    let all = s.push(x);
    lemma_filtered(s, levels, l);
    lemma_by_level_members(s, levels, l - 1);
    assert(all.drop_last() =~= s);
    reveal_with_fuel(Seq::filter, 1);
    if levels[x as int] == l {
        assert(all.filter(at_level(levels, l)) == f.push(x));
        lemma_by_level_skip(s, x, levels, l - 1);
        assert forall|i: int| f.len() <= i < old.len() implies key(x) < key(#[trigger] old[i]) by {
            assert(old[i] == rest[i - f.len()]);
        }
        if f.len() > 0 {
            assert(old[f.len() - 1] == f[f.len() - 1]);
        }
        lemma_place_is(old, key, key(x), f.len() as int);
        assert(f.push(x) + rest =~= old.insert(f.len() as int, x));
    } else {
        assert(all.filter(at_level(levels, l)) == f);
        lemma_by_level_push(s, x, levels, l - 1);
        lemma_place(rest, key, key(x), rest.len() as int);
        let p = place(rest, key, key(x), rest.len() as int);
        assert forall|i: int| f.len() + p <= i < old.len() implies key(x) < key(
            #[trigger] old[i],
        ) by {
            assert(old[i] == rest[i - f.len()]);
        }
        if p > 0 {
            assert(old[f.len() + p - 1] == rest[p - 1]);
        } else if f.len() > 0 {
            assert(old[f.len() - 1] == f[f.len() - 1]);
        }
        lemma_place_is(old, key, key(x), f.len() + p);
        assert(f + rest.insert(p, x) =~= old.insert(f.len() + p, x));
    }
}

proof fn lemma_by_level_skip(s: Seq<u32>, x: u32, levels: Seq<u8>, l: int)
    requires
        levels[x as int] > l,
    ensures
        by_level(s.push(x), levels, l) == by_level(s, levels, l),
    decreases l + 1,
{
    if l >= 0 {
        assert(s.push(x).drop_last() =~= s);
        reveal_with_fuel(Seq::filter, 1);
        lemma_by_level_skip(s, x, levels, l - 1);
    }
}

/// Collecting the ids level by level sorts them by descending level, stably.
pub proof fn law_by_level_sorts(s: Seq<u32>, levels: Seq<u8>, l: int)
    requires
        forall|k: int| 0 <= k < s.len() ==> levels[#[trigger] s[k] as int] <= l,
    ensures
        by_level(s, levels, l) == stable_sort(s, high_first(levels)),
    decreases s.len(),
{
    if s.len() == 0 {
        lemma_by_level_none(s, levels, l);
    } else {
        let front = s.drop_last();
        assert forall|k: int| 0 <= k < front.len() implies levels[#[trigger] front[k] as int] <= l by {
            assert(levels[s[k] as int] <= l);
        }
        law_by_level_sorts(front, levels, l);
        assert(levels[s[s.len() - 1] as int] <= l);
        lemma_by_level_push(front, s.last(), levels, l);
        assert(front.push(s.last()) =~= s);
    }
}

proof fn lemma_by_level_none(s: Seq<u32>, levels: Seq<u8>, l: int)
    requires
        s.len() == 0,
    ensures
        by_level(s, levels, l) == s,
    decreases l + 1,
{
    if l >= 0 {
        reveal_with_fuel(Seq::filter, 1);
        lemma_by_level_none(s, levels, l - 1);
        assert(by_level(s, levels, l) =~= s);
    } else {
        assert(by_level(s, levels, l) =~= s);
    }
}

/// Sorts ids by descending level, keeping the order within a level.
pub fn sort_by_level(order: &Vec<u32>, levels: &[u8]) -> (out: Vec<u32>)
    requires
        forall|k: int| 0 <= k < order@.len() ==> (#[trigger] order@[k]) < levels.len(),
    ensures
        out@ == stable_sort(order@, high_first(levels@)),
{
    let mut out: Vec<u32> = Vec::with_capacity(order.len());
    let mut l: u16 = 256;
    assert(by_level(order@, levels@, 255) =~= out@ + by_level(order@, levels@, 255));
    while l > 0
        invariant
            l <= 256,
            forall|k: int| 0 <= k < order@.len() ==> (#[trigger] order@[k]) < levels.len(),
            by_level(order@, levels@, 255) == out@ + by_level(order@, levels@, l - 1),
        decreases l,
    {
        let level: u16 = l - 1;
        let ghost pred = at_level(levels@, level as int);
        let ghost before = out@;
        assert(order@.take(0).filter(pred) =~= Seq::empty()) by {
            reveal_with_fuel(Seq::filter, 1);
        }
        for k in 0..order.len()
            invariant
                pred == at_level(levels@, level as int),
                forall|k: int| 0 <= k < order@.len() ==> (#[trigger] order@[k]) < levels.len(),
                out@ == before + order@.take(k as int).filter(pred),
        {
            let id: u32 = order[k];
            proof {
                assert(order@.take(k + 1).drop_last() =~= order@.take(k as int));
                reveal_with_fuel(Seq::filter, 1);
            }
            if levels[id as usize] as u16 == level {
                out.push(id);
            }
            assert(out@ =~= before + order@.take(k + 1).filter(pred));
        }
        proof {
            assert(order@.take(order@.len() as int) =~= order@);
            assert(by_level(order@, levels@, 255) =~= out@ + by_level(order@, levels@, level - 1));
        }
        l = level;
    }
    proof {
        assert(out@ =~= by_level(order@, levels@, 255));
        law_by_level_sorts(order@, levels@, 255);
    }
    out
}

/// A shuffle goes from the last position down: each is exchanged with one not behind it, which the next state
/// of the generator gives by its remainder. It starts with the ids in order and with the seed mixed with
/// `0xA5A5A5A55A5A5A5A`; the highest levels come first, each in the order of the shuffle.
pub proof fn law_shuffle(s: Seq<u32>, x: u64, i: int, n: int, levels: Seq<u8>, seed: u64, l: u8)
    requires
        0 <= n,
    ensures
        i <= 0 ==> shuffled(s, x, i) == s,
        0 < i < s.len() ==> {
            let y = xorshift(x);
            let j = (y as usize) as int % (i + 1);
            shuffled(s, x, i) == shuffled(s.update(i, s[j]).update(j, s[i]), y, i - 1)
        },
        ({
            let mixed = shuffled(
                Seq::new(n as nat, |k: int| k as u32),
                (seed ^ 0xA5A5_A5A5_5A5A_5A5Au64) | 1u64,
                n - 1,
            );
            insertion_order(n, levels, seed).filter(|id: u32| levels[id as int] == l) == mixed.filter(
                |id: u32| levels[id as int] == l,
            )
        }),
{
    let mixed = shuffled(
        Seq::new(n as nat, |k: int| k as u32),
        (seed ^ 0xA5A5_A5A5_5A5A_5A5Au64) | 1u64,
        n - 1,
    );
    assert(Seq::new(n as nat, |k: int| k as u32) =~= all_ids(n));
    let key = high_first(levels);
    law_stable_sort_keeps_ties(mixed, key, -(l as int));
    let pred = |id: u32| levels[id as int] == l;
    assert(pred =~= key_is(key, -(l as int)));
}

} // verus!
