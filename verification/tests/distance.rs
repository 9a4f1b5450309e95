use rinha::consts::VECTOR_DIM;
use rinha::distance::{l2_squared, l2_squared_avx2, l2_squared_scalar};

#[test]
fn zero_distance_to_self() {
    let v = [1i8; VECTOR_DIM];
    assert_eq!(l2_squared_scalar(&v, &v), 0);
}

#[test]
fn known_distance() {
    let a = [0i8; VECTOR_DIM];
    let b = [3i8; VECTOR_DIM];
    // 14 dimensions * 9 = 126
    assert_eq!(l2_squared_scalar(&a, &b), 126);
}

#[test]
fn negative_safe() {
    let a = [-100i8; VECTOR_DIM];
    let b = [100i8; VECTOR_DIM];
    // 14 * 200^2 = 14 * 40000 = 560_000
    assert_eq!(l2_squared_scalar(&a, &b), 560_000);
}

#[test]
fn lanes_match_scalar() {
    let mut state: u64 = 0x1234_5678_9ABC_DEF1;
    for _ in 0..500 {
        let mut a = [0i8; VECTOR_DIM];
        let mut b = [0i8; VECTOR_DIM];
        for i in 0..VECTOR_DIM {
            state = state.wrapping_mul(6364136223846793005).wrapping_add(1442695040888963407);
            a[i] = (state >> 33) as i8;
            b[i] = (state >> 45) as i8;
        }
        let scalar = l2_squared_scalar(&a, &b);
        assert_eq!(scalar, l2_squared_avx2(&a, &b));
        assert_eq!(scalar, l2_squared(&a, &b));
        assert_eq!(scalar, l2_squared(&b, &a));
    }
}

#[test]
fn extremes_do_not_overflow() {
    let a = [-128i8; VECTOR_DIM];
    let b = [127i8; VECTOR_DIM];
    assert_eq!(l2_squared(&a, &b), 14 * 255 * 255);
}

#[test]
fn every_dimension_counts_once() {
    for i in 0..VECTOR_DIM {
        let a = [0i8; VECTOR_DIM];
        let mut b = [0i8; VECTOR_DIM];
        b[i] = 5;
        assert_eq!(l2_squared_avx2(&a, &b), 25);
        assert_ne!(l2_squared(&a, &b), 0);
    }
}
