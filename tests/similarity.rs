use quackin::similarity::{cosine, jaccard, pearson, similarity, Metric, SIM_ONE};
use quackin::sparse::{covariance, dot, norm, sqrt_floor, sum, SparseVector};

fn vector(pairs: &[(u32, i16)]) -> SparseVector {
    SparseVector::from_pairs(&pairs.to_vec())
}

#[test]
fn cosine_zero_test() {
    let a = vector(&[(0, 1), (1, 1), (2, 1)]);
    let b = vector(&[]);
    assert_eq!(0, cosine(&a, &b));
}

#[test]
fn cosine_parallel_test() {
    let a = vector(&[(0, 1), (1, 1), (2, 1)]);
    let b = vector(&[(0, 2), (1, 2), (2, 2)]);
    assert_eq!(SIM_ONE, cosine(&a, &b));
}

#[test]
fn cosine_orthogonal_test() {
    let a = vector(&[(0, 1), (1, 1), (2, 0)]);
    let b = vector(&[(0, 2), (1, -2), (2, 0)]);
    assert_eq!(0, cosine(&a, &b));
}

#[test]
fn cosine_is_symmetric() {
    let a = vector(&[(0, 3), (5, -2)]);
    let b = vector(&[(5, 7), (9, 1)]);
    assert_eq!(cosine(&a, &b), cosine(&b, &a));
    assert_eq!(-549125, cosine(&a, &b));
}

#[test]
fn cosine_with_empty_is_zero_both_ways() {
    let a = vector(&[(4, 5), (7, 3)]);
    let e = SparseVector::new();
    assert_eq!(0, cosine(&a, &e));
    assert_eq!(0, cosine(&e, &a));
    assert_eq!(0, cosine(&e, &e));
}

#[test]
fn cosine_self_multiple_and_negation() {
    let a = vector(&[(0, 1), (1, 1), (2, 1)]);
    let neg = vector(&[(0, -1), (1, -1), (2, -1)]);
    let tripled = vector(&[(0, 3), (1, 3), (2, 3)]);
    assert_eq!(SIM_ONE, cosine(&a, &a));
    assert_eq!(SIM_ONE, cosine(&a, &tripled));
    assert_eq!(-SIM_ONE, cosine(&a, &neg));
    let b = vector(&[(2, 7), (9, -4), (11, 1)]);
    assert_eq!(SIM_ONE, cosine(&b, &b));
}

#[test]
fn cosine_exact_value() {
    let a = vector(&[(1, 5), (2, 4)]);
    let b = vector(&[(1, 3), (2, 4)]);
    assert_eq!(968277, cosine(&a, &b));
}

#[test]
fn jaccard_and_pearson_exact_values() {
    let a = vector(&[(1, 5), (2, 4)]);
    let b = vector(&[(1, 3), (2, 4)]);
    assert_eq!(885714, jaccard(&a, &b));
    assert_eq!(-SIM_ONE, pearson(&a, &b, 2));
    assert_eq!(909090, pearson(&a, &b, 3));
    assert_eq!(0, jaccard(&SparseVector::new(), &SparseVector::new()));
    assert_eq!(0, pearson(&a, &SparseVector::new(), 3));
    assert_eq!(909090, similarity(Metric::Pearson, &a, &b, 3));
    assert_eq!(885714, similarity(Metric::Jaccard, &a, &b, 3));
    assert_eq!(968277, similarity(Metric::Cosine, &a, &b, 3));
}

#[test]
fn sparse_algebra_values() {
    let a = vector(&[(1, 5), (2, 4)]);
    let b = vector(&[(1, 3), (2, 4), (8, 9)]);
    assert_eq!(31, dot(&a, &b));
    assert_eq!(31, dot(&b, &a));
    assert_eq!(6, norm(&a));
    assert_eq!(9, sum(&a));
    assert_eq!(16, sum(&b));
    assert_eq!(3 * 31 - 9 * 16, covariance(&a, &b, 3));
    assert_eq!(0, dot(&a, &SparseVector::new()));
}

#[test]
fn sqrt_floor_values() {
    assert_eq!(0, sqrt_floor(0));
    assert_eq!(1, sqrt_floor(3));
    assert_eq!(32, sqrt_floor(1025));
    assert_eq!(37, sqrt_floor(1394));
    assert_eq!(u64::MAX as u128, sqrt_floor(u128::MAX));
}

#[test]
fn sparse_vector_insert_get_remove() {
    let mut v = SparseVector::new();
    v.insert(9, 4);
    v.insert(2, 7);
    v.insert(9, -1);
    assert_eq!(2, v.len());
    assert_eq!(Some(7), v.get(2));
    assert_eq!(Some(-1), v.get(9));
    assert_eq!(None, v.get(3));
    v.remove(2);
    v.remove(3);
    assert_eq!(None, v.get(2));
    assert_eq!(1, v.len());
    assert_eq!(&vec![(9u32, -1i16)], v.entries());
    let w = vector(&[(5, 1), (1, 2), (5, 3)]);
    assert_eq!(&vec![(1u32, 2i16), (5u32, 3i16)], w.entries());
    assert_eq!(w.entries(), w.duplicate().entries());
}

#[test]
fn cosine_with_fractional_multiple() {
    let a = vector(&[(1, 2), (4, 4), (6, -6)]);
    let b = vector(&[(1, 3), (4, 6), (6, -9)]);
    assert_eq!(SIM_ONE, cosine(&a, &b));
    assert_eq!(SIM_ONE, cosine(&b, &a));
}
