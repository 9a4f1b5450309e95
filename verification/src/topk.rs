//! Bounded lists of (distance, id) pairs used while a graph is built.
use crate::sort::{ascending, law_put_ascending, lemma_place, place, put};
use vstd::prelude::*;

verus! {

/// A distance and the id of the node at that distance.
pub type Hit = (u32, u32);

/// The largest distance in an ascending list; `u32::MAX` if it is empty.
pub open spec fn worst(items: Seq<Hit>) -> u32 {
    if items.len() == 0 {
        u32::MAX
    } else {
        items.last().0
    }
}

/// First position from `i` on whose distance is not below `d`.
pub open spec fn position_from(items: Seq<Hit>, d: u32, i: int) -> int
    decreases items.len() - i,
{
    if 0 <= i < items.len() && items[i].0 < d {
        position_from(items, d, i + 1)
    } else {
        i
    }
}

/// Whether a list of at most `cap` pairs takes a pair at distance `d`.
pub open spec fn accepts(items: Seq<Hit>, cap: int, d: u32) -> bool {
    !(items.len() == cap && d >= worst(items))
}

/// The list after it took `item`: before the first pair that is not nearer, and cut to `cap` pairs.
pub open spec fn taken(items: Seq<Hit>, cap: int, item: Hit) -> Seq<Hit> {
    let all = items.insert(position_from(items, item.0, 0), item);
    if all.len() > cap {
        all.drop_last()
    } else {
        all
    }
}

/// Ascending by distance.
pub open spec fn by_distance(items: Seq<Hit>) -> bool {
    forall|i: int, j: int| 0 <= i <= j < items.len() ==> items[i].0 <= items[j].0
}

pub proof fn lemma_position_from(items: Seq<Hit>, d: u32, i: int)
    requires
        0 <= i <= items.len(),
    ensures
        i <= position_from(items, d, i) <= items.len(),
        forall|j: int| i <= j < position_from(items, d, i) ==> items[j].0 < d,
        position_from(items, d, i) < items.len() ==> items[position_from(items, d, i)].0 >= d,
    decreases items.len() - i,
{
    if i < items.len() && items[i].0 < d {
        lemma_position_from(items, d, i + 1);
    }
}

/// Taking a pair keeps the list ascending and within its capacity.
pub proof fn law_taken_keeps_order(items: Seq<Hit>, cap: int, item: Hit)
    requires
        by_distance(items),
        items.len() <= cap,
    ensures
        by_distance(taken(items, cap, item)),
        taken(items, cap, item).len() <= cap,
        items.len() < cap ==> taken(items, cap, item).len() == items.len() + 1,
{
    lemma_position_from(items, item.0, 0);
}

/// When a full list takes a pair, the pair that leaves is a farthest one.
pub proof fn law_taken_drops_farthest(items: Seq<Hit>, item: Hit)
    requires
        by_distance(items),
        items.len() > 0,
        item.0 < worst(items),
    ensures
        taken(items, items.len() as int, item) == items.drop_last().insert(
            position_from(items, item.0, 0),
            item,
        ),
{
    lemma_position_from(items, item.0, 0);
    let p = position_from(items, item.0, 0);
    assert(p < items.len());
    assert(taken(items, items.len() as int, item) =~= items.drop_last().insert(p, item));
}

/// The nearest pairs seen so far, at most `cap` of them, ascending by distance.
pub struct TopK {
    pub items: Vec<Hit>,
    pub cap: usize,
}

impl TopK {
    pub open spec fn wf(&self) -> bool {
        &&& by_distance(self.items@)
        &&& self.items@.len() <= self.cap
    }

    pub fn new(cap: usize) -> (t: Self)
        ensures
            t.wf(),
            t.cap == cap,
            t.items@ == Seq::<Hit>::empty(),
    {
        TopK { items: Vec::new(), cap }
    }

    /// The largest distance kept, `u32::MAX` if nothing is kept.
    pub fn worst_dist(&self) -> (d: u32)
        ensures
            d == worst(self.items@),
    {
        let n: usize = self.items.len();
        if n == 0 {
            u32::MAX
        } else {
            self.items[n - 1].0
        }
    }

    pub fn len(&self) -> (n: usize)
        ensures
            n == self.items@.len(),
    {
        self.items.len()
    }

    /// Takes `item` if it is nearer than the worst pair kept or there is room. Returns whether it was
    /// taken.
    pub fn try_insert(&mut self, item: Hit) -> (took: bool)
        requires
            old(self).wf(),
        ensures
            final(self).wf(),
            final(self).cap == old(self).cap,
            took == accepts(old(self).items@, old(self).cap as int, item.0),
            final(self).items@ == (if took {
                taken(old(self).items@, old(self).cap as int, item)
            } else {
                old(self).items@
            }),
    {
        if self.items.len() == self.cap && item.0 >= self.worst_dist() {
            return false;
        }
        let ghost before = self.items@;
        let mut pos: usize = 0;
        while pos < self.items.len() && self.items[pos].0 < item.0
            invariant
                self.items@ == before,
                pos <= self.items.len(),
                position_from(before, item.0, 0) == position_from(before, item.0, pos as int),
            decreases self.items.len() - pos,
        {
            pos = pos + 1;
        }
        proof {
            law_taken_keeps_order(before, self.cap as int, item);
        }
        self.items.insert(pos, item);
        if self.items.len() > self.cap {
            self.items.pop();
        }
        true
    }

    /// The pairs kept, ascending by distance.
    pub fn into_sorted(self) -> (items: Vec<Hit>)
        ensures
            items@ == self.items@,
    {
        self.items
    }
}

/// Orders pairs from the farthest to the nearest, equal distances by descending id.
pub open spec fn far_first() -> spec_fn(Hit) -> int {
    |p: Hit| -(p.0 * 0x1_0000_0000 + p.1)
}

/// Candidates to expand, the nearest at the end; equal distances by descending id.
pub struct Frontier {
    pub items: Vec<Hit>,
}

impl Frontier {
    pub open spec fn wf(&self) -> bool {
        ascending(self.items@, far_first())
    }

    pub fn new() -> (f: Self)
        ensures
            f.wf(),
            f.items@ == Seq::<Hit>::empty(),
    {
        Frontier { items: Vec::new() }
    }

    /// Adds a candidate.
    pub fn push(&mut self, x: Hit)
        requires
            old(self).wf(),
        ensures
            final(self).wf(),
            final(self).items@ == put(old(self).items@, far_first(), x),
    {
        let ghost key = far_first();
        let ghost before = self.items@;
        let mut pos: usize = self.items.len();
        while pos > 0 && (x.0 > self.items[pos - 1].0 || (x.0 == self.items[pos - 1].0 && x.1
            > self.items[pos - 1].1))
            invariant
                key == far_first(),
                self.items@ == before,
                pos <= self.items.len(),
                place(before, key, key(x), before.len() as int) == place(
                    before,
                    key,
                    key(x),
                    pos as int,
                ),
            decreases pos,
        {
            pos = pos - 1;
        }
        proof {
            law_put_ascending(before, key, x);
            lemma_place(before, key, key(x), before.len() as int);
        }
        self.items.insert(pos, x);
    }

    /// Takes the nearest candidate, the smallest id among equally near ones.
    pub fn pop(&mut self) -> (x: Option<Hit>)
        requires
            old(self).wf(),
        ensures
            final(self).wf(),
            old(self).items@.len() == 0 ==> x is None && final(self).items@ == old(self).items@,
            old(self).items@.len() > 0 ==> x == Some(old(self).items@.last()) && final(self).items@
                == old(self).items@.drop_last(),
            x is Some ==> forall|i: int|
                0 <= i < old(self).items@.len() ==> {
                    let y = #[trigger] old(self).items@[i];
                    x.unwrap().0 < y.0 || (x.unwrap().0 == y.0 && x.unwrap().1 <= y.1)
                },
    {
        let ghost before = self.items@;
        let x: Option<Hit> = self.items.pop();
        proof {
            if before.len() > 0 {
                assert forall|i: int| 0 <= i < before.len() implies {
                    let y = #[trigger] before[i];
                    before.last().0 < y.0 || (before.last().0 == y.0 && before.last().1 <= y.1)
                } by {
                    assert(far_first()(before[i]) <= far_first()(before[before.len() - 1]));
                }
            }
        }
        x
    }
}

/// A list takes a pair if it has room or the pair is nearer than its last one. The pair goes before the first that is
/// not nearer, and what is then beyond the capacity goes.
pub proof fn law_taken(items: Seq<Hit>, cap: int, item: Hit, p: int)
    requires
        items.len() <= cap,
        0 <= p <= items.len(),
        forall|i: int| 0 <= i < p ==> (#[trigger] items[i]).0 < item.0,
        p < items.len() ==> items[p].0 >= item.0,
    ensures
        items.len() < cap ==> accepts(items, cap, item.0),
        items.len() == cap && items.len() > 0 ==> (accepts(items, cap, item.0) <==> item.0
            < items[items.len() - 1].0),
        items.len() < cap ==> taken(items, cap, item) == items.subrange(0, p) + seq![item]
            + items.subrange(p, items.len() as int),
        items.len() == cap && p < cap ==> taken(items, cap, item) == items.subrange(0, p) + seq![item]
            + items.subrange(p, items.len() - 1),
{
    lemma_position_from(items, item.0, 0);
    let at = position_from(items, item.0, 0);
    assert(at == p) by {
        if at < p {
            assert(items[at].0 < item.0);
        }
        if p < at {
            assert(items[p].0 < item.0);
        }
    }
    if items.len() < cap {
        assert(taken(items, cap, item) =~= items.subrange(0, p) + seq![item] + items.subrange(
            p,
            items.len() as int,
        ));
    } else if p < cap {
        assert(taken(items, cap, item) =~= items.subrange(0, p) + seq![item] + items.subrange(
            p,
            items.len() - 1,
        ));
    }
}

} // verus!
