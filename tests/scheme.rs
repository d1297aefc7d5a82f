use fhe_ntt::bfv::{encrypt_decrypt_cycle, homomorphic_add, homomorphic_mul_simple};
use fhe_ntt::ckks::{rescaling, rotate_polynomial};
use fhe_ntt::error::FheError;

#[test]
fn homomorphic_add_concrete() {
    let r = homomorphic_add((&[1, 2], &[3, 4]), (&[5, 6], &[7, 8]), 11);
    assert_eq!(r, Ok((vec![6, 8], vec![10, 1])));
}

#[test]
fn homomorphic_add_zero_identity_and_commutativity() {
    let a = (&[1u64, 9][..], &[3u64, 4][..]);
    let b = (&[5u64, 6][..], &[10u64, 8][..]);
    let zero = (&[0u64, 0][..], &[0u64, 0][..]);
    assert_eq!(homomorphic_add(a, zero, 11), Ok((vec![1, 9], vec![3, 4])));
    assert_eq!(homomorphic_add(a, b, 11), homomorphic_add(b, a, 11));
}

#[test]
fn homomorphic_add_errors() {
    assert_eq!(homomorphic_add((&[1], &[2]), (&[3], &[4]), 1), Err(FheError::InvalidModulus));
    assert_eq!(homomorphic_add((&[1, 2], &[2]), (&[3], &[4]), 11), Err(FheError::SizeMismatch));
}

#[test]
fn homomorphic_mul_concrete() {
    let r = homomorphic_mul_simple((&[1, 2], &[3, 4]), (&[5, 6], &[7, 8]), 97, 7);
    assert_eq!(r, Ok((vec![75, 83], vec![39, 18], vec![24, 92])));
}

#[test]
fn homomorphic_mul_errors() {
    let a = (&[1u64, 2][..], &[3u64, 4][..]);
    assert_eq!(homomorphic_mul_simple(a, a, 1, 7), Err(FheError::InvalidModulus));
    assert_eq!(homomorphic_mul_simple(a, a, 97, 0), Err(FheError::InvalidModulus));
    assert_eq!(homomorphic_mul_simple(a, (&[1], &[2]), 97, 7), Err(FheError::SizeMismatch));
    assert_eq!(homomorphic_mul_simple(a, a, 100, 50), Err(FheError::NotInvertible));
    assert_eq!(homomorphic_mul_simple(a, a, 97, 200), Err(FheError::NotInvertible));
}

#[test]
fn encrypt_decrypt_cycle_outcomes() {
    assert!(encrypt_decrypt_cycle(16, 97, 1));
    assert!(encrypt_decrypt_cycle(16, 2, 1));
    assert!(!encrypt_decrypt_cycle(16, 0x7fffffffe0001, 65537));
    assert!(!encrypt_decrypt_cycle(4, 0x7fffffffe0001, 65537));
    assert!(!encrypt_decrypt_cycle(0, 97, 7));
}

#[test]
fn rotation_by_one_and_minus_one() {
    assert_eq!(rotate_polynomial(&[1, 2, 3, 4], 1, 17), vec![4, 16, 2, 14]);
    assert_eq!(rotate_polynomial(&[1, 2, 3, 4], -1, 17), vec![2, 14, 4, 16]);
    assert_eq!(rotate_polynomial(&[1, 2, 3, 4], 2, 17), vec![3, 4, 1, 2]);
    assert_eq!(rotate_polynomial(&[1, 2, 3, 4], -6, 17), vec![3, 4, 1, 2]);
    assert_eq!(rotate_polynomial(&[1, 2, 3, 4], 4, 17), vec![1, 2, 3, 4]);
    assert_eq!(rotate_polynomial(&[], 3, 17), Vec::<u64>::new());
    assert_eq!(rotate_polynomial(&[5, 0, 7], isize::MIN, 17), rotate_polynomial(&[5, 0, 7], 1, 17));
}

#[test]
fn rescaling_rounds_to_nearest() {
    assert_eq!(rescaling(&[10, 15, 0, 19], 20, 7), vec![4, 5, 0, 0]);
    assert_eq!(rescaling(&[u64::MAX], u64::MAX, 1 << 40), vec![0]);
    assert_eq!(rescaling(&[100], 1000, 1 << 20), vec![104858]);
}
