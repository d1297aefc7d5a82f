use fhe_ntt::error::FheError;
use fhe_ntt::ntt::{ntt_forward_radix4, CoeffPoly, EvalPoly, TransformContext};
use fhe_ntt::scratch::ScratchPool;

const P: u64 = 998244353;
const ROOT16: u64 = 929031873;

fn naive_values(a: &[u64], omega: u64, m: u64) -> Vec<u64> {
    let n = a.len();
    let mut out = Vec::new();
    for k in 0..n {
        let mut acc: u128 = 0;
        for (j, &c) in a.iter().enumerate() {
            let mut p: u128 = 1;
            for _ in 0..(j * k) {
                p = p * omega as u128 % m as u128;
            }
            acc = (acc + c as u128 * p) % m as u128;
        }
        out.push(acc as u64);
    }
    out
}

#[test]
fn transform_round_trip_seventeen() {
    let ctx = TransformContext::new(17, 4, 9).unwrap();
    let mut data = vec![1u64, 2, 3, 4];
    assert_eq!(ctx.forward(&mut data), Ok(()));
    assert_eq!(data, vec![10, 6, 15, 7]);
    assert_eq!(ctx.inverse(&mut data), Ok(()));
    assert_eq!(data, vec![1, 2, 3, 4]);
}

#[test]
fn ntt_basic_round_trip() {
    let root = ROOT16;
    let ctx = TransformContext::new(P, 8, root).unwrap();
    let mut data: Vec<u64> = vec![1, 2, 3, 4, 5, 6, 7, 8];
    assert!(ctx.forward(&mut data).is_ok());
    assert!(ctx.inverse(&mut data).is_ok());
    let expected: Vec<u64> = vec![1, 2, 3, 4, 5, 6, 7, 8];
    assert_eq!(data, expected);
}

#[test]
fn forward_is_evaluation_at_powers_of_omega() {
    let ctx = TransformContext::new(P, 8, ROOT16).unwrap();
    let a: Vec<u64> = vec![5, 0, 17, 123456, P - 1, 9, 2, 77];
    let mut data = a.clone();
    ctx.forward(&mut data).unwrap();
    let omega = (ROOT16 as u128 * ROOT16 as u128 % P as u128) as u64;
    assert_eq!(data, naive_values(&a, omega, P));
}

#[test]
fn round_trip_many_sizes() {
    for log_n in 0..8u32 {
        let n = 1usize << log_n;
        let root = {
            let e = (P - 1) / (2 * n as u64);
            let mut r: u128 = 1;
            let mut b: u128 = 3;
            let mut k = e;
            while k > 0 {
                if k & 1 == 1 {
                    r = r * b % P as u128;
                }
                b = b * b % P as u128;
                k >>= 1;
            }
            r as u64
        };
        let ctx = TransformContext::new(P, n, root).unwrap();
        let a: Vec<u64> = (0..n as u64).map(|i| (i * 7919 + 13) % P).collect();
        let mut data = a.clone();
        ctx.forward(&mut data).unwrap();
        ctx.inverse(&mut data).unwrap();
        assert_eq!(data, a);
    }
}

#[test]
fn linearity_concrete() {
    let ctx = TransformContext::new(17, 4, 9).unwrap();
    let a = vec![1u64, 2, 3, 4];
    let b = vec![16u64, 5, 0, 9];
    let sum: Vec<u64> = a.iter().zip(&b).map(|(x, y)| (x + y) % 17).collect();
    let mut fa = a.clone();
    let mut fb = b.clone();
    let mut fs = sum.clone();
    ctx.forward(&mut fa).unwrap();
    ctx.forward(&mut fb).unwrap();
    ctx.forward(&mut fs).unwrap();
    let added: Vec<u64> = fa.iter().zip(&fb).map(|(x, y)| (x + y) % 17).collect();
    assert_eq!(added, fs);
}

#[test]
fn convolution_concrete() {
    let ctx = TransformContext::new(17, 4, 9).unwrap();
    let mut fa = vec![1u64, 2, 3, 4];
    let mut fb = vec![5u64, 6, 7, 8];
    ctx.forward(&mut fa).unwrap();
    ctx.forward(&mut fb).unwrap();
    let mut prod: Vec<u64> = fa.iter().zip(&fb).map(|(x, y)| x * y % 17).collect();
    ctx.inverse(&mut prod).unwrap();
    assert_eq!(prod, vec![15, 0, 15, 9]);
}

#[test]
fn size_one_is_identity() {
    let ctx = TransformContext::new(17, 1, 16).unwrap();
    let mut data = vec![11u64];
    ctx.forward(&mut data).unwrap();
    assert_eq!(data, vec![11]);
    ctx.inverse(&mut data).unwrap();
    assert_eq!(data, vec![11]);
}

#[test]
fn invalid_roots_are_rejected() {
    assert_eq!(TransformContext::new(17, 4, 3).err(), Some(FheError::InvalidRoot));
    assert_eq!(TransformContext::new(17, 4, 4).err(), Some(FheError::InvalidRoot));
    assert_eq!(TransformContext::new(17, 4, 1).err(), Some(FheError::InvalidRoot));
    assert_eq!(TransformContext::new(17, 2, 2).err(), Some(FheError::InvalidRoot));
    assert_eq!(TransformContext::new(17, 1, 1).err(), Some(FheError::InvalidRoot));
    assert_eq!(TransformContext::new(P, 8, 7).err(), Some(FheError::InvalidRoot));
    assert_eq!(TransformContext::new(2, 1, 1).err(), Some(FheError::InvalidRoot));
    assert_eq!(TransformContext::new(0xFFFFF001, 8, 7).err(), Some(FheError::InvalidRoot));
}

#[test]
fn invalid_sizes_and_moduli_are_rejected() {
    assert_eq!(TransformContext::new(17, 0, 9).err(), Some(FheError::InvalidSize));
    assert_eq!(TransformContext::new(17, 3, 9).err(), Some(FheError::InvalidSize));
    assert_eq!(TransformContext::new(17, 12, 9).err(), Some(FheError::InvalidSize));
    assert_eq!(TransformContext::new(0, 4, 9).err(), Some(FheError::InvalidModulus));
    assert_eq!(TransformContext::new(1, 4, 9).err(), Some(FheError::InvalidModulus));
    assert_eq!(TransformContext::new(10, 2, 3).err(), Some(FheError::InvalidModulus));
}

#[test]
fn wrong_length_is_a_size_mismatch() {
    let ctx = TransformContext::new(17, 4, 9).unwrap();
    let mut data = vec![1u64, 2, 3];
    assert_eq!(ctx.forward(&mut data), Err(FheError::SizeMismatch));
    assert_eq!(ctx.inverse(&mut data), Err(FheError::SizeMismatch));
    assert_eq!(data, vec![1, 2, 3]);
    assert_eq!(ctx.modulus(), 17);
    assert_eq!(ctx.size(), 4);
    assert_eq!(ctx.root(), 9);
}

#[test]
fn radix4_matches_radix2() {
    let root32 = 452798380u64;
    let ctx = TransformContext::new(P, 16, root32).unwrap();
    let a: Vec<u64> = (0..16u64).map(|i| (i * i * 31 + 7) % P).collect();
    let mut r2 = a.clone();
    let mut r4 = a.clone();
    ctx.forward(&mut r2).unwrap();
    assert_eq!(ctx.forward_radix4(&mut r4), Ok(()));
    assert_eq!(r4, r2);
    let omega = (root32 as u128 * root32 as u128 % P as u128) as u64;
    assert_eq!(r4, naive_values(&a, omega, P));
    ctx.inverse(&mut r4).unwrap();
    assert_eq!(r4, a);
}

#[test]
fn radix4_entry_point() {
    let mut data = vec![1u64, 2, 3, 4];
    assert_eq!(ntt_forward_radix4(&mut data, 17, 9), Ok(()));
    assert_eq!(data, vec![10, 6, 15, 7]);
    let mut one = vec![5u64];
    assert_eq!(ntt_forward_radix4(&mut one, 17, 16), Ok(()));
    assert_eq!(one, vec![5]);
}

#[test]
fn radix4_needs_a_power_of_four() {
    let mut data: Vec<u64> = (1..=8).collect();
    assert_eq!(
        ntt_forward_radix4(&mut data, P, ROOT16),
        Err(FheError::InvalidSize)
    );
    assert_eq!(data, (1..=8).collect::<Vec<u64>>());
    let mut three = vec![1u64, 2, 3];
    assert_eq!(ntt_forward_radix4(&mut three, 17, 9), Err(FheError::InvalidSize));
    let mut bad_root = vec![1u64, 2, 3, 4];
    assert_eq!(ntt_forward_radix4(&mut bad_root, 17, 3), Err(FheError::InvalidRoot));
    let ctx = TransformContext::new(P, 8, ROOT16).unwrap();
    let mut v: Vec<u64> = (1..=8).collect();
    assert_eq!(ctx.forward_radix4(&mut v), Err(FheError::InvalidSize));
    let mut w = vec![1u64, 2];
    assert_eq!(ctx.forward_radix4(&mut w), Err(FheError::SizeMismatch));
}

#[test]
fn typed_domains_round_trip() {
    let ctx = TransformContext::new(17, 4, 9).unwrap();
    let e = ctx.to_evaluation(CoeffPoly { coeffs: vec![1, 2, 3, 4] }).unwrap();
    assert_eq!(e.values, vec![10, 6, 15, 7]);
    let c = ctx.to_coefficients(e).unwrap();
    assert_eq!(c.coeffs, vec![1, 2, 3, 4]);
    assert_eq!(
        ctx.to_evaluation(CoeffPoly { coeffs: vec![1, 2] }).err(),
        Some(FheError::SizeMismatch)
    );
    assert_eq!(
        ctx.to_coefficients(EvalPoly { values: vec![1] }).err(),
        Some(FheError::SizeMismatch)
    );
}

#[test]
fn scratch_pool_reuses_by_size() {
    let mut pool = ScratchPool::new();
    let mut a = pool.acquire(4);
    assert_eq!(a, vec![0; 4]);
    a[0] = 9;
    pool.release(a);
    pool.release(vec![1, 2]);
    assert_eq!(pool.free_buffers(), 2);
    let b = pool.acquire(4);
    assert_eq!(b, vec![0; 4]);
    assert_eq!(pool.free_buffers(), 1);
    let c = pool.acquire(3);
    assert_eq!(c, vec![0; 3]);
    assert_eq!(pool.free_buffers(), 1);
    let d = pool.acquire(2);
    assert_eq!(d, vec![0, 0]);
    assert_eq!(pool.free_buffers(), 0);
}
