use plonk_core::field::Fr;

fn fr(x: u64) -> Fr {
    Fr::from_u64(x)
}

#[test]
fn test_scalar_ops() {
    let a = fr(40);
    let b = fr(60);
    assert_eq!(a.add(&b), fr(100));
    assert_eq!(b.sub(&a), fr(20));
    assert_eq!(a.mul(&b), fr(2400));
    assert_eq!(a.sub(&b).add(&fr(20)), Fr::zero());
    assert_eq!(a.neg().add(&a), Fr::zero());
    assert_eq!(a.square(), fr(1600));
    assert_eq!(fr(3).pow(5), fr(243));
    assert_eq!(fr(7).pow(0), Fr::one());
    let inv = a.inv().unwrap();
    assert_eq!(inv.mul(&a), Fr::one());
    assert!(Fr::zero().inv().is_none());
    assert!(Fr::zero().is_zero());
    assert!(!Fr::one().is_zero());
    assert!(fr(5).equals(&fr(2).add(&fr(3))));
}

#[test]
fn scalar_deser() {
    let a = fr(100);
    let bytes = a.to_bytes();
    let b = Fr::from_canonical_bytes(bytes).unwrap();
    assert_eq!(a, b);
    let c = fr(123456789).neg();
    assert_eq!(Fr::from_canonical_bytes(c.to_bytes()).unwrap(), c);
}

#[test]
fn scalar_from_to_bytes() {
    let small_value = Fr::from_u64(165747);
    let small_value_bytes = small_value.to_bytes();
    let expected_small_value_bytes: [u8; 32] = [
        115, 135, 2, 0, 0, 0, 0, 0, 0, 0, 0, 0, 0, 0, 0, 0, 0, 0, 0, 0, 0, 0, 0, 0, 0, 0, 0, 0,
        0, 0, 0, 0,
    ];
    assert_eq!(small_value_bytes, expected_small_value_bytes);

    let small_value_from_bytes = Fr::from_canonical_bytes(small_value_bytes).unwrap();
    assert_eq!(small_value_from_bytes, small_value);
}

#[test]
fn non_canonical_bytes_are_refused_and_reduced() {
    // 2^256 - 1 is above the order.
    let bytes = [255u8; 32];
    assert!(Fr::from_canonical_bytes(bytes).is_none());
    let r = Fr::from_bytes_mod_order(bytes);
    assert!(Fr::from_canonical_bytes(r.to_bytes()).is_some());
    // -1 encodes as l - 1.
    let minus_one = Fr::one().neg();
    assert_eq!(Fr::from_bytes_mod_order(minus_one.to_bytes()), minus_one);
    assert_eq!(minus_one.add(&Fr::one()), Fr::zero());
}

#[test]
fn batch_inversion_inverts_each() {
    let mut v = vec![fr(3), fr(5), fr(7), fr(11)];
    plonk_core::field::batch_inversion(&mut v);
    assert_eq!(v[0].mul(&fr(3)), Fr::one());
    assert_eq!(v[1].mul(&fr(5)), Fr::one());
    assert_eq!(v[2], fr(7).inv().unwrap());
    assert_eq!(v[3].mul(&fr(11)), Fr::one());
}

#[test]
fn scalar_ops() {
    let a = Fr::from_u64(40);
    let b = Fr::from_u64(60);
    let c = a.add(&b);
    let d = Fr::from_u64(100);
    assert_eq!(c, d);
    let e = a.mul(&b);
    assert_eq!(e, Fr::from_u64(2400));
}

#[test]
fn scalar_serialization() {
    let a = Fr::from_u64(100);
    let bytes = a.to_bytes();
    let b = Fr::from_bytes_mod_order(bytes);
    assert_eq!(a, b);
}
