//! Binary heaps of (distance, id) pairs, ordered by distance alone.
use crate::topk::Hit;
use vstd::prelude::*;

verus! {

/// Whether `a` belongs above `b`: it is farther in a max-heap, nearer in a min-heap.
pub open spec fn above(max: bool, a: Hit, b: Hit) -> bool {
    if max {
        a.0 > b.0
    } else {
        a.0 < b.0
    }
}

pub open spec fn parent(i: int) -> int {
    (i - 1) / 2
}

/// `h` with the items at `i` and `j` exchanged.
pub open spec fn exchanged(h: Seq<Hit>, i: int, j: int) -> Seq<Hit> {
    h.update(i, h[j]).update(j, h[i])
}

/// `h` after the item at `i` rose while it belonged above its parent.
pub open spec fn sifted_up(max: bool, h: Seq<Hit>, i: int) -> Seq<Hit>
    decreases i,
{
    if i > 0 && above(max, h[i], h[parent(i)]) {
        sifted_up(max, exchanged(h, i, parent(i)), parent(i))
    } else {
        h
    }
}

/// The child of `i` that belongs above it and above the other child; `i` if there is none.
pub open spec fn best_child(max: bool, h: Seq<Hit>, i: int) -> int {
    let a = if 2 * i + 1 < h.len() && above(max, h[2 * i + 1], h[i]) {
        2 * i + 1
    } else {
        i
    };
    if 2 * i + 2 < h.len() && above(max, h[2 * i + 2], h[a]) {
        2 * i + 2
    } else {
        a
    }
}

/// `h` after the item at `i` sank while a child belonged above it.
pub open spec fn sifted_down(max: bool, h: Seq<Hit>, i: int) -> Seq<Hit>
    decreases h.len() - i,
{
    let b = best_child(max, h, i);
    if 0 <= i < h.len() && b != i {
        sifted_down(max, exchanged(h, i, b), b)
    } else {
        h
    }
}

/// The heap after `x` was added.
pub open spec fn pushed(max: bool, h: Seq<Hit>, x: Hit) -> Seq<Hit> {
    sifted_up(max, h.push(x), h.len() as int)
}

/// The heap after its root was taken.
pub open spec fn pulled(max: bool, h: Seq<Hit>) -> Seq<Hit> {
    if h.len() <= 1 {
        Seq::empty()
    } else {
        sifted_down(max, h.drop_last().update(0, h.last()), 0)
    }
}

/// No item belongs above its parent.
pub open spec fn is_heap(max: bool, h: Seq<Hit>) -> bool {
    forall|j: int| 0 < j < h.len() ==> !above(max, #[trigger] h[j], h[parent(j)])
}

/// A heap but for the item at `i`, which may belong above its parent.
pub open spec fn heap_but_up(max: bool, h: Seq<Hit>, i: int) -> bool {
    &&& forall|j: int|
        0 < j < h.len() && j != i ==> !above(max, #[trigger] h[j], h[parent(j)])
    &&& forall|j: int|
        0 < j < h.len() && parent(j) == i && i > 0 ==> !above(max, #[trigger] h[j], h[parent(i)])
}

/// A heap but for the item at `i`, whose children may belong above it.
pub open spec fn heap_but_down(max: bool, h: Seq<Hit>, i: int) -> bool {
    &&& forall|j: int|
        0 < j < h.len() && parent(j) != i ==> !above(max, #[trigger] h[j], h[parent(j)])
    &&& forall|j: int|
        0 < j < h.len() && parent(j) == i && i > 0 ==> !above(max, #[trigger] h[j], h[parent(i)])
}

proof fn lemma_exchanged(h: Seq<Hit>, i: int, j: int)
    requires
        0 <= i < h.len(),
        0 <= j < h.len(),
    ensures
        exchanged(h, i, j).len() == h.len(),
        exchanged(h, i, j).to_multiset() == h.to_multiset(),
{
    broadcast use vstd::seq_lib::group_to_multiset_ensures;
    broadcast use vstd::multiset::group_multiset_axioms;

    let a = h.update(i, h[j]);
    let b = a.update(j, h[i]);
    vstd::seq_lib::to_multiset_update(h, i, h[j]);
    vstd::seq_lib::to_multiset_update(a, j, h[i]);
    assert(h.contains(h[i]));
    assert(h.to_multiset().count(h[i]) > 0);
    if i == j {
        assert(b =~= h);
    } else {
        assert(a[j] == h[j]);
        assert(b.to_multiset() =~= h.to_multiset());
    }
}

/// Letting an item rise keeps the items, makes a heap of what is one but for that item, and changes nothing
/// in a heap.
pub proof fn law_sift_up(max: bool, h: Seq<Hit>, i: int)
    requires
        i == 0 || 0 < i < h.len(),
    ensures
        sifted_up(max, h, i).len() == h.len(),
        sifted_up(max, h, i).to_multiset() == h.to_multiset(),
        heap_but_up(max, h, i) ==> is_heap(max, sifted_up(max, h, i)),
        is_heap(max, h) ==> sifted_up(max, h, i) == h,
    decreases i,
{
    if i > 0 && above(max, h[i], h[parent(i)]) {
        let p = parent(i);
        let t = exchanged(h, i, p);
        lemma_exchanged(h, i, p);
        if heap_but_up(max, h, i) {
            assert(heap_but_up(max, t, p)) by {
                assert forall|j: int| 0 < j < t.len() && j != p implies !above(
                    max,
                    #[trigger] t[j],
                    t[parent(j)],
                ) by {
                    if j == i {
                    } else if parent(j) == i {
                        assert(!above(max, h[j], h[p]));
                    } else {
                        assert(!above(max, h[j], h[parent(j)]));
                    }
                }
                assert forall|j: int| 0 < j < t.len() && parent(j) == p && p > 0 implies !above(
                    max,
                    #[trigger] t[j],
                    t[parent(p)],
                ) by {
                    assert(!above(max, h[p], h[parent(p)]));
                    if j != i {
                        assert(!above(max, h[j], h[p]));
                    }
                }
            }
        }
        law_sift_up(max, t, p);
    } else if heap_but_up(max, h, i) {
        assert forall|j: int| 0 < j < h.len() implies !above(
            max,
            #[trigger] h[j],
            h[parent(j)],
        ) by {}
    }
}

/// Letting an item sink keeps the items, makes a heap of what is one but for that item, and changes nothing
/// in a heap or where there is no such item.
pub proof fn law_sift_down(max: bool, h: Seq<Hit>, i: int)
    requires
        0 <= i,
    ensures
        sifted_down(max, h, i).len() == h.len(),
        sifted_down(max, h, i).to_multiset() == h.to_multiset(),
        heap_but_down(max, h, i) ==> is_heap(max, sifted_down(max, h, i)),
        is_heap(max, h) || i >= h.len() ==> sifted_down(max, h, i) == h,
    decreases h.len() - i,
{
    let b = best_child(max, h, i);
    if is_heap(max, h) && i < h.len() {
        assert(2 * i + 1 < h.len() ==> !above(max, h[2 * i + 1], h[parent(2 * i + 1)]));
        assert(2 * i + 2 < h.len() ==> !above(max, h[2 * i + 2], h[parent(2 * i + 2)]));
    }
    if b != i {
        let t = exchanged(h, i, b);
        lemma_exchanged(h, i, b);
        if heap_but_down(max, h, i) {
            assert(heap_but_down(max, t, b)) by {
                assert forall|j: int| 0 < j < t.len() && parent(j) != b implies !above(
                    max,
                    #[trigger] t[j],
                    t[parent(j)],
                ) by {
                    if parent(j) == i {
                        assert(j == 2 * i + 1 || j == 2 * i + 2);
                    } else if j == i {
                        assert(!above(max, h[b], h[parent(i)]));
                    } else {
                        assert(!above(max, h[j], h[parent(j)]));
                    }
                }
                assert forall|j: int| 0 < j < t.len() && parent(j) == b && b > 0 implies !above(
                    max,
                    #[trigger] t[j],
                    t[parent(b)],
                ) by {
                    assert(!above(max, h[j], h[parent(j)]));
                }
            }
        }
        law_sift_down(max, t, b);
    } else if heap_but_down(max, h, i) {
        assert forall|j: int| 0 < j < h.len() implies !above(
            max,
            #[trigger] h[j],
            h[parent(j)],
        ) by {
            if parent(j) == i {
                assert(j == 2 * i + 1 || j == 2 * i + 2);
            }
        }
    }
}

/// Adding an item to a heap gives a heap with that item more.
pub proof fn law_push(max: bool, h: Seq<Hit>, x: Hit)
    ensures
        pushed(max, h, x).to_multiset() == h.to_multiset().insert(x),
        pushed(max, h, x).len() == h.len() + 1,
        is_heap(max, h) ==> is_heap(max, pushed(max, h, x)),
{
    broadcast use vstd::seq_lib::group_to_multiset_ensures;

    let t = h.push(x);
    let i = h.len() as int;
    if is_heap(max, h) {
        assert(heap_but_up(max, t, i)) by {
            assert forall|j: int| 0 < j < t.len() && j != i implies !above(
                max,
                #[trigger] t[j],
                t[parent(j)],
            ) by {
                assert(!above(max, h[j], h[parent(j)]));
            }
        }
    }
    law_sift_up(max, t, i);
}

/// Taking the root of a heap leaves a heap with that item less.
pub proof fn law_pop(max: bool, h: Seq<Hit>)
    requires
        h.len() > 0,
    ensures
        pulled(max, h).to_multiset() == h.to_multiset().remove(h[0]),
        pulled(max, h).len() == h.len() - 1,
        is_heap(max, h) ==> is_heap(max, pulled(max, h)),
{
    broadcast use vstd::seq_lib::group_to_multiset_ensures;
    broadcast use vstd::multiset::group_multiset_axioms;

    let front = h.drop_last();
    assert(front.push(h.last()) =~= h);
    if h.len() == 1 {
        assert(front =~= Seq::empty());
        assert(pulled(max, h).to_multiset() =~= h.to_multiset().remove(h[0]));
    } else {
        let t = front.update(0, h.last());
        vstd::seq_lib::to_multiset_update(front, 0, h.last());
        assert(front.contains(front[0]));
        assert(front.to_multiset().count(front[0]) > 0);
        assert(t.to_multiset() =~= h.to_multiset().remove(h[0]));
        if is_heap(max, h) {
            assert(heap_but_down(max, t, 0)) by {
                assert forall|j: int| 0 < j < t.len() && parent(j) != 0 implies !above(
                    max,
                    #[trigger] t[j],
                    t[parent(j)],
                ) by {
                    assert(!above(max, h[j], h[parent(j)]));
                }
            }
        }
        law_sift_down(max, t, 0);
    }
}

/// No item of a heap belongs above its root.
pub proof fn law_root_is_extreme(max: bool, h: Seq<Hit>, i: int)
    requires
        is_heap(max, h),
        0 <= i < h.len(),
    ensures
        !above(max, h[i], h[0]),
    decreases i,
{
    if i > 0 {
        law_root_is_extreme(max, h, parent(i));
        assert(!above(max, h[i], h[parent(i)]));
    }
}

fn goes_above(max: bool, a: Hit, b: Hit) -> (r: bool)
    ensures
        r == above(max, a, b),
{
    if max {
        a.0 > b.0
    } else {
        a.0 < b.0
    }
}

fn swap(heap: &mut Vec<Hit>, i: usize, j: usize)
    requires
        i < old(heap).len(),
        j < old(heap).len(),
    ensures
        final(heap)@ == exchanged(old(heap)@, i as int, j as int),
{
    let a: Hit = heap[i];
    let b: Hit = heap[j];
    heap[i] = b;
    heap[j] = a;
}

fn sift_up(max: bool, heap: &mut Vec<Hit>, start: usize)
    requires
        start == 0 || start < old(heap).len(),
    ensures
        final(heap)@ == sifted_up(max, old(heap)@, start as int),
{
    let ghost goal = sifted_up(max, heap@, start as int);
    let mut i: usize = start;
    while i > 0 && goes_above(max, heap[i], heap[(i - 1) / 2])
        invariant
            i == 0 || i < heap.len(),
            goal == sifted_up(max, heap@, i as int),
        decreases i,
    {
        let p: usize = (i - 1) / 2;
        swap(heap, i, p);
        i = p;
    }
}

fn sift_down(max: bool, heap: &mut Vec<Hit>, start: usize)
    ensures
        final(heap)@ == sifted_down(max, old(heap)@, start as int),
{
    let ghost goal = sifted_down(max, heap@, start as int);
    let n: usize = heap.len();
    let mut i: usize = start;
    loop
        invariant_except_break
            heap.len() == n,
            goal == sifted_down(max, heap@, i as int),
        ensures
            goal == heap@,
        decreases n - i,
    {
        if i >= n / 2 {
            break;
        }
        let left: usize = 2 * i + 1;
        let mut best: usize = i;
        if goes_above(max, heap[left], heap[best]) {
            best = left;
        }
        if left + 1 < n && goes_above(max, heap[left + 1], heap[best]) {
            best = left + 1;
        }
        assert(best == best_child(max, heap@, i as int));
        if best == i {
            break;
        }
        swap(heap, i, best);
        i = best;
    }
}

/// Takes the root; the last item takes its place.
fn take_root(heap: &mut Vec<Hit>) -> (top: Option<Hit>)
    ensures
        old(heap)@.len() == 0 ==> top is None && final(heap)@ == old(heap)@,
        old(heap)@.len() > 0 ==> top == Some(old(heap)@[0]),
        old(heap)@.len() == 1 ==> final(heap)@ == Seq::<Hit>::empty(),
        old(heap)@.len() > 1 ==> final(heap)@ == old(heap)@.drop_last().update(0, old(heap)@.last()),
{
    if heap.len() == 0 {
        return None;
    }
    let top: Hit = heap[0];
    let last: Hit = heap[heap.len() - 1];
    heap.pop();
    if heap.len() > 0 {
        heap[0] = last;
    } else {
        assert(heap@ =~= Seq::empty());
    }
    Some(top)
}

/// Lets the item at `i` of a min-heap rise to its place.
pub fn sift_up_min(heap: &mut Vec<Hit>, i: usize)
    requires
        i == 0 || i < old(heap).len(),
    ensures
        final(heap)@ == sifted_up(false, old(heap)@, i as int),
{
    sift_up(false, heap, i);
}

/// Lets the item at `i` of a min-heap sink to its place; does nothing if there is none.
pub fn sift_down_min(heap: &mut Vec<Hit>, i: usize)
    ensures
        final(heap)@ == sifted_down(false, old(heap)@, i as int),
{
    sift_down(false, heap, i);
}

/// Adds a pair to a min-heap.
pub fn push_min(heap: &mut Vec<Hit>, x: Hit)
    ensures
        final(heap)@ == pushed(false, old(heap)@, x),
{
    heap.push(x);
    let last: usize = heap.len() - 1;
    sift_up_min(heap, last);
}

/// Takes the root of a min-heap.
pub fn pop_min(heap: &mut Vec<Hit>) -> (top: Option<Hit>)
    ensures
        old(heap)@.len() == 0 ==> top is None && final(heap)@ == old(heap)@,
        old(heap)@.len() > 0 ==> top == Some(old(heap)@[0]) && final(heap)@ == pulled(
            false,
            old(heap)@,
        ),
{
    let top: Option<Hit> = take_root(heap);
    if heap.len() > 0 {
        sift_down_min(heap, 0);
    }
    top
}

/// Lets the item at `i` of a max-heap rise to its place.
pub fn sift_up_max(heap: &mut Vec<Hit>, i: usize)
    requires
        i == 0 || i < old(heap).len(),
    ensures
        final(heap)@ == sifted_up(true, old(heap)@, i as int),
{
    sift_up(true, heap, i);
}

/// Lets the item at `i` of a max-heap sink to its place; does nothing if there is none.
pub fn sift_down_max(heap: &mut Vec<Hit>, i: usize)
    ensures
        final(heap)@ == sifted_down(true, old(heap)@, i as int),
{
    sift_down(true, heap, i);
}

/// Adds a pair to a max-heap.
pub fn push_max(heap: &mut Vec<Hit>, x: Hit)
    ensures
        final(heap)@ == pushed(true, old(heap)@, x),
{
    heap.push(x);
    let last: usize = heap.len() - 1;
    sift_up_max(heap, last);
}

/// Takes the root of a max-heap.
pub fn pop_max(heap: &mut Vec<Hit>) -> (top: Option<Hit>)
    ensures
        old(heap)@.len() == 0 ==> top is None && final(heap)@ == old(heap)@,
        old(heap)@.len() > 0 ==> top == Some(old(heap)@[0]) && final(heap)@ == pulled(
            true,
            old(heap)@,
        ),
{
    let top: Option<Hit> = take_root(heap);
    if heap.len() > 0 {
        sift_down_max(heap, 0);
    }
    top
}

/// The root of a max-heap.
pub fn peek_max(heap: &Vec<Hit>) -> (top: Option<Hit>)
    ensures
        heap@.len() == 0 ==> top is None,
        heap@.len() > 0 ==> top == Some(heap@[0]),
{
    if heap.len() == 0 {
        None
    } else {
        Some(heap[0])
    }
}

/// In a max-heap the farther pair belongs above, in a min-heap the nearer one, and of equally far ones neither. The
/// first child rises unless the second belongs above it.
pub proof fn law_heap_order(max: bool, h: Seq<Hit>, i: int, a: Hit, b: Hit)
    requires
        0 <= i,
        2 * i + 2 < h.len(),
    ensures
        above(true, a, b) <==> a.0 > b.0,
        above(false, a, b) <==> a.0 < b.0,
        ({
            let l = h[2 * i + 1];
            let r = h[2 * i + 2];
            let c = best_child(max, h, i);
            &&& above(max, l, h[i]) && !above(max, r, l) ==> c == 2 * i + 1
            &&& above(max, r, h[i]) && above(max, r, l) ==> c == 2 * i + 2
            &&& !above(max, l, h[i]) && !above(max, r, h[i]) ==> c == i
        }),
{
}

} // verus!
