use plonk_core::cs::TurboCS;
use plonk_core::field::Fr;
use plonk_core::simfr::{SimFr, SimFrMulVar, SimFrVar, SimReducibility, NUM_OF_LIMBS, NUM_OF_LIMBS_MUL};

/// A small deterministic generator of test values.
struct Lcg(u64);

impl Lcg {
    fn next_u64(&mut self) -> u64 {
        self.0 = self.0.wrapping_mul(6364136223846793005).wrapping_add(1442695040888963407);
        self.0
    }

    fn bytes(&mut self) -> [u8; 32] {
        let mut b = [0u8; 32];
        for chunk in b.chunks_mut(8) {
            chunk.copy_from_slice(&self.next_u64().to_le_bytes());
        }
        b
    }

    /// A value below the group order, as its encoding.
    fn below_order(&mut self) -> [u8; 32] {
        Fr::from_bytes_mod_order(self.bytes()).to_bytes()
    }
}

const ROUNDS: usize = 100;

fn test_sim_fr_equality(cs: TurboCS, val: &SimFrVar) {
    let mut cs = cs;
    for i in 0..NUM_OF_LIMBS {
        cs.insert_constant_gate(val.var[i], Fr::from_u128(val.val.limbs[i]));
    }

    let witness = cs.witness.clone();
    assert!(cs.verify_witness(&witness[..], &[]).is_ok());
}

fn test_sim_fr_mul_equality(cs: TurboCS, val: &SimFrMulVar) {
    let mut cs = cs;
    for i in 0..NUM_OF_LIMBS_MUL {
        cs.insert_constant_gate(val.var[i], Fr::from_u128(val.val.limbs[i]));
    }

    let witness = cs.witness.clone();
    assert!(cs.verify_witness(&witness[..], &[]).is_ok());
}

#[test]
fn test_alloc_constant() {
    let mut rng = Lcg(100);
    for _ in 0..ROUNDS {
        let a = rng.below_order();
        let a_sim_fr = SimFr::from_le_bytes(&a);
        {
            let mut cs = TurboCS::new();
            let a_sim_fr_var = SimFrVar::alloc_constant(&mut cs, &a_sim_fr);
            test_sim_fr_equality(cs, &a_sim_fr_var);
        }
    }
}

#[test]
fn test_alloc_witness() {
    let mut rng = Lcg(101);
    for _ in 0..ROUNDS {
        let a = rng.below_order();
        let a_sim_fr = SimFr::from_le_bytes(&a);
        {
            let mut cs = TurboCS::new();
            let a_sim_fr_var = SimFrVar::alloc_witness(&mut cs, &a_sim_fr);
            test_sim_fr_equality(cs, &a_sim_fr_var);
        }
    }
}

#[test]
fn test_sub() {
    let mut rng = Lcg(102);
    for _ in 0..ROUNDS {
        let a = rng.below_order();
        let b = rng.below_order();

        let a_sim_fr = SimFr::from_le_bytes(&a);
        let b_sim_fr = SimFr::from_le_bytes(&b);

        {
            let mut cs = TurboCS::new();

            let a_sim_fr_var = SimFrVar::alloc_witness(&mut cs, &a_sim_fr);
            let b_sim_fr_var = SimFrVar::alloc_witness(&mut cs, &b_sim_fr);

            let c_sim_fr_var = a_sim_fr_var.sub(&mut cs, &b_sim_fr_var);
            test_sim_fr_equality(cs, &c_sim_fr_var);
        }
    }
}

#[test]
fn test_mul() {
    let mut rng = Lcg(103);
    for _ in 0..ROUNDS {
        let a = rng.below_order();
        let b = rng.below_order();

        let a_sim_fr = SimFr::from_le_bytes(&a);
        let b_sim_fr = SimFr::from_le_bytes(&b);

        {
            let mut cs = TurboCS::new();

            let a_sim_fr_var = SimFrVar::alloc_witness(&mut cs, &a_sim_fr);
            let b_sim_fr_var = SimFrVar::alloc_witness(&mut cs, &b_sim_fr);

            let c_sim_fr_mul_var = a_sim_fr_var.mul(&mut cs, &b_sim_fr_var);
            test_sim_fr_mul_equality(cs, &c_sim_fr_mul_var);
        }
    }
}

#[test]
fn test_bounded_allocated_witness() {
    let mut rng = Lcg(104);
    for _ in 0..ROUNDS {
        let mut a = rng.bytes();
        a[30] = 0;
        a[31] = 0;
        let a_sim_fr = SimFr::from_le_bytes(&a);
        {
            let mut cs = TurboCS::new();
            let a_sim_fr_var = SimFrVar::alloc_witness_bounded_total_bits(&mut cs, &a_sim_fr, 240);
            test_sim_fr_equality(cs, &a_sim_fr_var);
        }
    }
}

#[test]
#[should_panic]
fn test_bounded_allocated_witness_bad() {
    let mut a = [0u8; 32];
    a[30] = 1;
    let a_sim_fr = SimFr::from_le_bytes(&a);

    {
        let mut cs = TurboCS::new();

        let a_sim_fr_var = SimFrVar::alloc_witness_bounded_total_bits(&mut cs, &a_sim_fr, 240);

        test_sim_fr_equality(cs, &a_sim_fr_var);
    }
}

#[test]
fn split_and_recombine_round_trip() {
    let mut rng = Lcg(105);
    for _ in 0..50 {
        let a = rng.below_order();
        let x = Fr::from_canonical_bytes(a).unwrap();
        let s = SimFr::from_le_bytes(&a);
        assert_eq!(s.num_of_additions_over_normal_form, SimReducibility::StrictlyNotReducible);
        for i in 0..5 {
            assert!(s.limbs[i] < 1u128 << 43);
        }
        assert!(s.limbs[5] < 1u128 << 38);
        assert_eq!(s.to_fr(), x);
    }
    // The limbs of 2^43 + 5 and of 2^255.
    let mut b = [0u8; 32];
    b[0] = 5;
    b[5] = 8;
    let s = SimFr::from_le_bytes(&b);
    assert_eq!(s.limbs, [5, 1, 0, 0, 0, 0]);
    let mut b = [0u8; 32];
    b[31] = 128;
    let s = SimFr::from_le_bytes(&b);
    assert_eq!(s.limbs, [0, 0, 0, 0, 0, 1u128 << 40]);
}

#[test]
fn alloc_witness_holds_the_limbs() {
    let mut rng = Lcg(106);
    let a = SimFr::from_le_bytes(&rng.below_order());
    let mut cs = TurboCS::new();
    let v = SimFrVar::alloc_witness(&mut cs, &a);
    assert_eq!(v.val.num_of_additions_over_normal_form, SimReducibility::AtMostReducibleByOne);
    for i in 0..NUM_OF_LIMBS {
        assert_eq!(cs.witness[v.var[i]], Fr::from_u128(a.limbs[i]));
    }
    let mut recombined = Fr::zero();
    for i in (0..NUM_OF_LIMBS).rev() {
        recombined = recombined.mul(&Fr::from_u64(1 << 43)).add(&cs.witness[v.var[i]]);
    }
    assert_eq!(recombined, a.to_fr());
}

#[test]
fn sub_recombines_to_the_difference() {
    let mut rng = Lcg(107);
    for _ in 0..50 {
        let a = rng.below_order();
        let b = rng.below_order();
        let x = Fr::from_canonical_bytes(a).unwrap();
        let y = Fr::from_canonical_bytes(b).unwrap();
        let d = SimFr::from_le_bytes(&a).sub(&SimFr::from_le_bytes(&b));
        assert_eq!(d.to_fr(), x.sub(&y));
    }
    // Equal values leave exactly the padding.
    let a = rng.below_order();
    let d = SimFr::from_le_bytes(&a).sub(&SimFr::from_le_bytes(&a));
    assert_eq!(d.to_fr(), Fr::zero());
}

#[test]
fn mul_limbs_recombine_to_the_product() {
    let mut rng = Lcg(108);
    for _ in 0..20 {
        let a = rng.below_order();
        let b = rng.below_order();
        let x = Fr::from_canonical_bytes(a).unwrap();
        let y = Fr::from_canonical_bytes(b).unwrap();
        let p = SimFr::from_le_bytes(&a).mul(&SimFr::from_le_bytes(&b));
        let mut acc = Fr::zero();
        for i in (0..NUM_OF_LIMBS_MUL).rev() {
            acc = acc.mul(&Fr::from_u64(1 << 43)).add(&Fr::from_u128(p.limbs[i]));
        }
        assert_eq!(acc, x.mul(&y));
    }
    let mut one = [0u8; 32];
    one[0] = 1;
    let mut three = [0u8; 32];
    three[0] = 3;
    let p = SimFr::from_le_bytes(&one).mul(&SimFr::from_le_bytes(&three));
    assert_eq!(p.limbs, [3, 0, 0, 0, 0, 0, 0, 0, 0, 0, 0]);
}

#[test]
fn a_wrong_limb_breaks_the_range_check() {
    let mut rng = Lcg(109);
    let a = SimFr::from_le_bytes(&rng.below_order());
    let mut cs = TurboCS::new();
    let v = SimFrVar::alloc_witness(&mut cs, &a);
    let mut w = cs.witness.clone();
    w[v.var[2]] = w[v.var[2]].add(&Fr::one());
    assert!(cs.verify_witness(&w, &[]).is_err());
}

#[test]
fn new_is_zero_on_the_zero_variable() {
    let mut cs = TurboCS::new();
    let v = SimFrVar::new(&mut cs);
    assert_eq!(v.var, [0; 6]);
    assert_eq!(v.val.limbs, [0; 6]);
    assert_eq!(cs.size(), 0);
    let inp = SimFrVar::alloc_input(&mut cs, &SimFr::from_le_bytes(&[1u8; 32]));
    assert_eq!(cs.size(), 0);
    assert_eq!(cs.num_vars(), 8);
    assert_eq!(cs.witness[inp.var[0]], Fr::from_u128(inp.val.limbs[0]));
}

#[test]
fn gadgets_add_the_stated_rows() {
    let mut rng = Lcg(110);
    let a = SimFr::from_le_bytes(&rng.below_order());
    let b = SimFr::from_le_bytes(&rng.below_order());
    let mut cs = TurboCS::new();
    let (n0, v0) = (cs.size(), cs.num_vars());
    let av = SimFrVar::alloc_witness(&mut cs, &a);
    assert_eq!(cs.size(), n0 + 512);
    assert_eq!(cs.num_vars(), v0 + 512);
    for i in 0..NUM_OF_LIMBS {
        assert_eq!(av.var[i], v0 + 87 * i);
        // The range check of limb i ends with `total + 0 = limb` on row n0 + 87 i + 2 bits.
        let bits = if i == 5 { 38 } else { 43 };
        assert_eq!(cs.gates[n0 + 87 * i + 2 * bits].wires[4], av.var[i]);
    }
    let bv = SimFrVar::alloc_witness(&mut cs, &b);
    let n1 = cs.size();
    let c = av.sub(&mut cs, &bv);
    assert_eq!(cs.size(), n1 + 6);
    for i in 0..NUM_OF_LIMBS {
        assert_eq!(cs.gates[n1 + i].wires, [av.var[i], 0, bv.var[i], 0, c.var[i]]);
        assert_eq!(cs.gates[n1 + i].selectors[2], Fr::one().neg());
    }
    let n2 = cs.size();
    let v2 = cs.num_vars();
    let p = av.mul(&mut cs, &bv);
    assert_eq!(cs.size(), n2 + 36);
    assert_eq!(cs.num_vars(), v2 + 36);
    // Limb 0 is the single product a_0 b_0, limb 10 the single product a_5 b_5.
    assert_eq!(cs.gates[n2].wires, [0, 0, av.var[0], bv.var[0], p.var[0]]);
    assert_eq!(cs.gates[n2 + 35].wires, [0, 0, av.var[5], bv.var[5], p.var[10]]);
    let w = cs.witness.clone();
    assert!(cs.verify_witness(&w, &[]).is_ok());
}
