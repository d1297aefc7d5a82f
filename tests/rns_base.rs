use fhe_ntt::error::FheError;
use fhe_ntt::rns::FastRns;

#[test]
fn rns_round_trip_concrete() {
    let base = FastRns::new(vec![3, 5, 7]).unwrap();
    assert_eq!(base.product(), 105);
    let residues = base.to_rns_single(52);
    assert_eq!(residues, vec![1, 2, 3]);
    assert_eq!(base.from_rns_fast(&residues), 52);
}

#[test]
fn rns_round_trip_all_values() {
    let base = FastRns::new(vec![3, 5, 7]).unwrap();
    for x in 0..400u64 {
        let r = base.to_rns_single(x);
        assert_eq!(base.from_rns_fast(&r), (x % 105) as u128);
    }
}

#[test]
fn rns_large_moduli() {
    let moduli = vec![0xffff_ffff_ffff_ffc5u64, 0xffff_ffff_ffff_ff59];
    let base = FastRns::new(moduli.clone()).unwrap();
    let x = 0x1234_5678_9abc_def0u64;
    let r = base.to_rns_single(x);
    assert_eq!(base.from_rns_fast(&r), x as u128);
    assert_eq!(base.moduli(), &moduli);
}

#[test]
fn rns_batch_and_slot_arithmetic() {
    let base = FastRns::new(vec![3, 5, 7]).unwrap();
    let batch = base.to_rns_batch(&[52, 10]);
    assert_eq!(batch, vec![vec![1, 2, 3], vec![1, 0, 3]]);
    let sum = base.rns_add_fast(&batch[0], &batch[1]).unwrap();
    assert_eq!(sum, vec![2, 2, 6]);
    assert_eq!(base.from_rns_fast(&sum), 62);
    let prod = base.rns_mul_fast(&batch[0], &batch[1]).unwrap();
    assert_eq!(prod, vec![1, 0, 2]);
    assert_eq!(base.from_rns_fast(&prod), 520 % 105);
    assert_eq!(base.rns_add_fast(&[1, 2], &[1, 2, 3]), Err(FheError::SizeMismatch));
    assert_eq!(base.rns_mul_fast(&[1, 2, 3], &[1]), Err(FheError::SizeMismatch));
}

#[test]
fn rns_invalid_bases() {
    assert_eq!(FastRns::new(vec![3, 1, 7]).err(), Some(FheError::InvalidModulus));
    assert_eq!(FastRns::new(vec![0]).err(), Some(FheError::InvalidModulus));
    assert_eq!(FastRns::new(vec![4, 6]).err(), Some(FheError::NotInvertible));
    assert_eq!(FastRns::new(vec![u64::MAX, u64::MAX - 2, 5]).err(), Some(FheError::InvalidModulus));
}
