use fhe_ntt::error::FheError;
use fhe_ntt::modular::{
    ct_select, mod_add, mod_add_batch, mod_add_fast, mod_inv, mod_inv_extended, mod_inv_fermat,
    mod_mul, mod_mul_fast, mod_pow, mod_pow_fast, mod_sub, mod_sub_fast, InversePolicy,
    Montgomery,
};

#[test]
fn inverse_of_three_mod_seventeen() {
    assert_eq!(mod_inv_extended(3, 17), Ok(6));
    assert_eq!(mod_inv_fermat(3, 17), Ok(6));
    assert_eq!(mod_inv(3, 17, InversePolicy::ExtendedEuclid), Ok(6));
    assert_eq!(mod_inv(3, 17, InversePolicy::Fermat), Ok(6));
    assert_eq!(mod_mul_fast(3, 6, 17), 1);
}

#[test]
fn inverse_times_element_is_one() {
    for p in [2u64, 3, 5, 17, 97, 65537, 998244353] {
        for a in 1..p.min(200) {
            let x = mod_inv_extended(a, p).unwrap();
            assert_eq!(mod_mul_fast(a, x, p), 1);
            assert_eq!(mod_inv_fermat(a, p), Ok(x));
        }
    }
}

#[test]
fn inverse_of_large_element() {
    let p = 0xffff_ffff_0000_0001u64;
    let a = 0x1234_5678_9abc_def0u64;
    let x = mod_inv_extended(a, p).unwrap();
    assert_eq!(mod_mul_fast(a, x, p), 1);
}

#[test]
fn smallest_prime_modulus() {
    assert_eq!(mod_inv_extended(1, 2), Ok(1));
    assert_eq!(mod_inv_fermat(1, 2), Ok(1));
    assert_eq!(mod_inv_extended(0, 2), Err(FheError::NotInvertible));
    assert_eq!(mod_add(1, 1, 2), Ok(0));
    assert_eq!(mod_sub(0, 1, 2), Ok(1));
    assert_eq!(mod_mul(1, 1, 2), Ok(1));
    assert_eq!(mod_pow(3, 5, 2), Ok(1));
}

#[test]
fn not_invertible_when_sharing_a_factor() {
    assert_eq!(mod_inv_extended(2, 4), Err(FheError::NotInvertible));
    assert_eq!(mod_inv_extended(6, 9), Err(FheError::NotInvertible));
    assert_eq!(mod_inv_extended(0, 17), Err(FheError::NotInvertible));
    assert_eq!(mod_inv_fermat(17, 17), Err(FheError::NotInvertible));
    assert_eq!(mod_inv(10, 15, InversePolicy::ExtendedEuclid), Err(FheError::NotInvertible));
}

#[test]
fn degenerate_modulus_is_rejected() {
    for m in [0u64, 1] {
        assert_eq!(mod_add(3, 4, m), Err(FheError::InvalidModulus));
        assert_eq!(mod_sub(3, 4, m), Err(FheError::InvalidModulus));
        assert_eq!(mod_mul(3, 4, m), Err(FheError::InvalidModulus));
        assert_eq!(mod_pow(3, 4, m), Err(FheError::InvalidModulus));
        assert_eq!(mod_inv_extended(3, m), Err(FheError::InvalidModulus));
    }
}

#[test]
fn checked_kernel_values() {
    assert_eq!(mod_add(10, 9, 17), Ok(2));
    assert_eq!(mod_sub(3, 5, 17), Ok(15));
    assert_eq!(mod_mul(5, 7, 17), Ok(1));
    assert_eq!(mod_pow(3, 16, 17), Ok(1));
    assert_eq!(mod_pow(2, 10, 1000), Ok(24));
    assert_eq!(mod_add(u64::MAX, u64::MAX, 1000), Ok(((u64::MAX as u128 * 2) % 1000) as u64));
    assert_eq!(mod_sub(0, u64::MAX, 1000), Ok(((1000 - u64::MAX % 1000) % 1000) as u64));
}

#[test]
fn branch_free_add_and_sub() {
    let m = u64::MAX - 58;
    assert_eq!(mod_add_fast(m - 1, m - 2, m), m - 3);
    assert_eq!(mod_add_fast(3, 4, 17), 7);
    assert_eq!(mod_add_fast(10, 9, 17), 2);
    assert_eq!(mod_sub_fast(3, 5, 17), 15);
    assert_eq!(mod_sub_fast(5, 3, 17), 2);
    assert_eq!(mod_sub_fast(0, m - 1, m), 1);
    assert_eq!(ct_select(true, 1, 2), 1);
    assert_eq!(ct_select(false, 1, 2), 2);
}

#[test]
fn branchy_and_branch_free_agree() {
    let m = 1_000_003u64;
    for a in (0..m).step_by(9973) {
        for b in (0..m).step_by(7919) {
            let branchy_add = if a + b >= m { a + b - m } else { a + b };
            let branchy_sub = if a >= b { a - b } else { a + m - b };
            assert_eq!(mod_add_fast(a, b, m), branchy_add);
            assert_eq!(mod_sub_fast(a, b, m), branchy_sub);
        }
    }
}

#[test]
fn wide_multiplication_and_power() {
    let m = 0xffff_ffff_ffff_ffc5u64;
    let a = m - 1;
    assert_eq!(mod_mul_fast(a, a, m), 1);
    assert_eq!(mod_pow_fast(a, 1_000_001, m), m - 1);
    assert_eq!(mod_pow_fast(7, 0, 13), 1);
    assert_eq!(mod_pow_fast(7, 0, 1), 0);
    assert_eq!(mod_pow_fast(2, 64, 1_000_000_007), ((1u128 << 64) % 1_000_000_007) as u64);
}

#[test]
fn batch_addition() {
    let a = [1u64, 2, 10, 16];
    let b = [5u64, 6, 7, 16];
    let mut out = [0u64; 4];
    assert_eq!(mod_add_batch(&a, &b, 17, &mut out), Ok(()));
    assert_eq!(out, [6, 8, 0, 15]);
    let mut short = [0u64; 3];
    assert_eq!(mod_add_batch(&a, &b, 17, &mut short), Err(FheError::SizeMismatch));
    assert_eq!(short, [0, 0, 0]);
}

#[test]
fn montgomery_round_trip() {
    for m in [17u64, 97, 65537, 998244353, 0x7fff_ffff_ffff_ffe7] {
        let mont = Montgomery::new(m);
        for (a, b) in [(0u64, 5u64), (1, 1), (3, 6), (m - 1, m - 1), (m / 2, m / 3)] {
            let am = mont.to_montgomery(a);
            assert_eq!(am as u128, ((a as u128) << 64) % m as u128);
            let bm = mont.to_montgomery(b);
            let pm = mont.mul(am, bm);
            assert_eq!(mont.from_montgomery(pm) as u128, (a as u128 * b as u128) % m as u128);
            let r = mont.mul(a, b);
            assert_eq!(((r as u128) << 64) % m as u128, (a as u128 * b as u128) % m as u128);
        }
    }
}
