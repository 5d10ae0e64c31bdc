use zkvm_precompiles::field::{FieldError, FpOpWitness, FpOperation};

#[test]
fn fp_add_reduces_with_carry() {
    let r = FpOpWitness::populate(&vec![50], &vec![60], FpOperation::Add, &vec![97]);
    assert_eq!(r.result, vec![13]);
    assert_eq!(r.carry, vec![1]);
}

#[test]
fn fp_sub_wraps_below_zero() {
    let r = FpOpWitness::populate(&vec![10], &vec![20], FpOperation::Sub, &vec![97]);
    assert_eq!(r.result, vec![87]);
    // 10 + 97 == 20 + 87 + 0 * 97
    assert!(r.carry.is_empty());
}

#[test]
fn fp_sub_without_borrow() {
    let r = FpOpWitness::populate(&vec![20], &vec![10], FpOperation::Sub, &vec![97]);
    assert_eq!(r.result, vec![10]);
    assert_eq!(r.carry, vec![1]);
}

#[test]
fn fp_mul_reduces_with_carry() {
    let r = FpOpWitness::populate(&vec![50], &vec![60], FpOperation::Mul, &vec![97]);
    assert_eq!(r.result, vec![90]);
    assert_eq!(r.carry, vec![30]);
}

#[test]
fn fp_mul_across_words() {
    // (2^32 + 1) * (2^32 - 1) = 2^64 - 1, reduced modulo 2^61 - 1.
    let m = vec![0xffff_ffff, 0x1fff_ffff];
    let r = FpOpWitness::populate(&vec![1, 1], &vec![0xffff_ffff], FpOperation::Mul, &m);
    assert_eq!(r.result, vec![7]);
    assert_eq!(r.carry, vec![8]);
}

#[test]
fn fp_zero_result_is_empty() {
    let r = FpOpWitness::populate(&vec![40], &vec![57], FpOperation::Add, &vec![97]);
    assert!(r.result.is_empty());
    assert_eq!(r.carry, vec![1]);
}

#[test]
fn inner_product_of_two_terms() {
    // 3 * 5 + 7 * 11 = 92 = 4 + 4 * 22
    let a = vec![vec![3], vec![7]];
    let b = vec![vec![5], vec![11]];
    let r = FpOpWitness::populate_inner_product(&a, &b, &vec![22]);
    assert_eq!(r.result, vec![4]);
    assert_eq!(r.carry, vec![4]);
}

#[test]
fn den_with_plus_sign() {
    // 3 / (1 + 2) mod 7 == 1
    let r = FpOpWitness::populate_den(&vec![3], &vec![2], true, &vec![7]).unwrap();
    assert_eq!(r.result, vec![1]);
}

#[test]
fn den_with_minus_sign() {
    // 4 / (1 - 3) = 4 / 5 mod 7; 5 * 5 = 25 = 4 mod 7, so the result is 5
    let r = FpOpWitness::populate_den(&vec![4], &vec![3], false, &vec![7]).unwrap();
    assert_eq!(r.result, vec![5]);
    // 5 * 5 == 4 + 3 * 7
    assert_eq!(r.carry, vec![3]);
    assert_eq!((5 * 5) % 7, 4);
}

#[test]
fn den_not_invertible() {
    // 1 + 6 == 0 mod 7
    let r = FpOpWitness::populate_den(&vec![3], &vec![6], true, &vec![7]);
    assert!(matches!(r, Err(FieldError::NotInvertible)));
    // 1 - 1 == 0 mod 7
    let r = FpOpWitness::populate_den(&vec![3], &vec![1], false, &vec![7]);
    assert!(matches!(r, Err(FieldError::NotInvertible)));
}
