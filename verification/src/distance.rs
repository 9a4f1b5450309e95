//! Squared Euclidean distance between `i8` vectors.
use crate::consts::VECTOR_DIM;
use vstd::prelude::*;

verus! {

/// Sum of the squared differences of the first `n` dimensions.
pub open spec fn l2_prefix(a: Seq<i8>, b: Seq<i8>, n: int) -> int
    decreases n,
{
    if n <= 0 {
        0
    } else {
        l2_prefix(a, b, n - 1) + (a[n - 1] - b[n - 1]) * (a[n - 1] - b[n - 1])
    }
}

/// Squared Euclidean distance over all dimensions.
pub open spec fn l2_spec(a: Seq<i8>, b: Seq<i8>) -> int {
    l2_prefix(a, b, VECTOR_DIM as int)
}

pub proof fn lemma_l2_prefix_bounds(a: Seq<i8>, b: Seq<i8>, n: int)
    requires
        0 <= n,
    ensures
        0 <= l2_prefix(a, b, n) <= n * 65025,
    decreases n,
{
    if n > 0 {
        lemma_l2_prefix_bounds(a, b, n - 1);
        let d = a[n - 1] - b[n - 1];
        assert(0 <= d * d <= 65025) by (nonlinear_arith)
            requires
                -255 <= d <= 255,
        ;
    }
}

/// Squared Euclidean distance of `a` and `b`.
pub fn l2_squared_scalar(a: &[i8; VECTOR_DIM], b: &[i8; VECTOR_DIM]) -> (s: i32)
    ensures
        s == l2_spec(a@, b@),
{
    let mut s: i32 = 0;
    for i in 0..VECTOR_DIM
        invariant
            s == l2_prefix(a@, b@, i as int),
            0 <= s <= i * 65025,
    {
        let d: i32 = a[i] as i32 - b[i] as i32;
        proof {
            lemma_l2_prefix_bounds(a@, b@, i + 1);
            assert(0 <= d * d <= 65025) by (nonlinear_arith)
                requires
                    -255 <= d <= 255,
            ;
        }
        s = s + d * d;
    }
    s
}

/// Square of the difference in dimension `i`; zero in the dimensions beyond the last.
fn squared_gap(a: &[i8; VECTOR_DIM], b: &[i8; VECTOR_DIM], i: usize) -> (s: i32)
    ensures
        i < VECTOR_DIM ==> s == (a@[i as int] - b@[i as int]) * (a@[i as int] - b@[i as int]),
        i >= VECTOR_DIM ==> s == 0,
        0 <= s <= 65025,
{
    if i < VECTOR_DIM {
        let d: i32 = a[i] as i32 - b[i] as i32;
        assert(0 <= d * d <= 65025) by (nonlinear_arith)
            requires
                -255 <= d <= 255,
        ;
        d * d
    } else {
        0
    }
}

/// Squared Euclidean distance of `a` and `b`, computed in eight lanes of two dimensions each that are
/// added up by halves.
pub fn l2_squared_avx2(a: &[i8; VECTOR_DIM], b: &[i8; VECTOR_DIM]) -> (s: i32)
    ensures
        s == l2_spec(a@, b@),
{
    let mut lanes: [i32; 8] = [0i32; 8];
    for k in 0..8usize
        invariant
            forall|j: int| 0 <= j < 8 ==> 0 <= #[trigger] lanes@[j] <= 130050,
            forall|j: int|
                0 <= j < k ==> #[trigger] lanes@[j] == l2_prefix(a@, b@, two(j + 1)) - l2_prefix(
                    a@,
                    b@,
                    two(j),
                ),
    {
        let even: i32 = squared_gap(a, b, 2 * k);
        let odd: i32 = squared_gap(a, b, 2 * k + 1);
        lanes[k] = even + odd;
        proof {
            reveal_with_fuel(l2_prefix, 3);
        }
    }
    let quad: [i32; 4] = [
        lanes[0] + lanes[4],
        lanes[1] + lanes[5],
        lanes[2] + lanes[6],
        lanes[3] + lanes[7],
    ];
    let pair: [i32; 2] = [quad[0] + quad[2], quad[1] + quad[3]];
    pair[0] + pair[1]
}

/// The dimensions before lane `j`.
spec fn two(j: int) -> int {
    if 2 * j < VECTOR_DIM {
        2 * j
    } else {
        VECTOR_DIM as int
    }
}

/// Squared Euclidean distance of `a` and `b`.
pub fn l2_squared(a: &[i8; VECTOR_DIM], b: &[i8; VECTOR_DIM]) -> (s: i32)
    ensures
        s == l2_spec(a@, b@),
        0 <= s <= 910350,
{
    proof {
        lemma_l2_prefix_bounds(a@, b@, VECTOR_DIM as int);
    }
    l2_squared_avx2(a, b)
}

/// The distance does not depend on the order of the two vectors.
pub proof fn law_l2_symmetric(a: Seq<i8>, b: Seq<i8>)
    ensures
        l2_spec(a, b) == l2_spec(b, a),
{
    lemma_prefix_symmetric(a, b, VECTOR_DIM as int);
}

proof fn lemma_prefix_symmetric(a: Seq<i8>, b: Seq<i8>, n: int)
    ensures
        l2_prefix(a, b, n) == l2_prefix(b, a, n),
    decreases n,
{
    if n > 0 {
        lemma_prefix_symmetric(a, b, n - 1);
        let d = a[n - 1] - b[n - 1];
        let e = b[n - 1] - a[n - 1];
        assert(d * d == e * e) by (nonlinear_arith)
            requires
                e == -d,
        ;
    }
}

/// Two vectors are at distance zero if and only if they are equal.
pub proof fn law_l2_zero_means_equal(a: Seq<i8>, b: Seq<i8>)
    requires
        a.len() == VECTOR_DIM,
        b.len() == VECTOR_DIM,
    ensures
        l2_spec(a, b) == 0 <==> a == b,
{
    lemma_prefix_zero(a, b, VECTOR_DIM as int);
    if l2_spec(a, b) == 0 {
        assert(a =~= b);
    }
}

proof fn lemma_prefix_zero(a: Seq<i8>, b: Seq<i8>, n: int)
    requires
        0 <= n,
    ensures
        l2_prefix(a, b, n) == 0 <==> forall|i: int| 0 <= i < n ==> a[i] == b[i],
    decreases n,
{
    if n > 0 {
        lemma_prefix_zero(a, b, n - 1);
        lemma_l2_prefix_bounds(a, b, n - 1);
        let d = a[n - 1] - b[n - 1];
        assert(0 <= d * d && (d * d == 0 <==> d == 0)) by (nonlinear_arith);
    }
}

/// The square of the difference in dimension `i`.
pub open spec fn squared(a: Seq<i8>, b: Seq<i8>, i: int) -> int {
    (a[i] - b[i]) * (a[i] - b[i])
}

/// The distance is the sum of the squared differences of the fourteen dimensions.
pub proof fn law_l2_sum(a: Seq<i8>, b: Seq<i8>)
    ensures
        l2_spec(a, b) == squared(a, b, 0) + squared(a, b, 1) + squared(a, b, 2) + squared(a, b, 3)
            + squared(a, b, 4) + squared(a, b, 5) + squared(a, b, 6) + squared(a, b, 7) + squared(a, b, 8)
            + squared(a, b, 9) + squared(a, b, 10) + squared(a, b, 11) + squared(a, b, 12) + squared(
            a,
            b,
            13,
        ),
{
    reveal_with_fuel(l2_prefix, 15);
}

} // verus!
