use plonk_core::challenges::PlonkChallenges;
use plonk_core::cs::TurboCS;
use plonk_core::errors::PlonkError;
use plonk_core::field::Fr;
use plonk_core::linearization::{
    compute_lagrange_constant, eval_pi_poly, first_lagrange_poly, pi_poly_evals, r_eval_zeta,
    r_scalars, ProofEvals,
};
use plonk_core::permutation::z_poly;
use plonk_core::poly::{hide_polynomial, linear_combination, split_t};
use plonk_core::quotient::{t_poly_coset_evals, CosetEvals};

fn fr(x: u64) -> Fr {
    Fr::from_u64(x)
}

/// A primitive fourth root of unity modulo the group order.
fn omega4() -> Fr {
    let bytes: [u8; 32] = [
        212, 7, 190, 235, 223, 117, 135, 190, 254, 131, 206, 66, 83, 86, 240, 14, 122, 194, 193,
        171, 96, 109, 61, 125, 231, 129, 121, 224, 16, 115, 74, 9,
    ];
    Fr::from_canonical_bytes(bytes).unwrap()
}

fn domain4() -> Vec<Fr> {
    let w = omega4();
    vec![Fr::one(), w, w.square(), w.square().mul(&w)]
}

fn challenges(beta: Fr, gamma: Fr, alpha: Fr, zeta: Fr) -> PlonkChallenges {
    let mut ch = PlonkChallenges::new();
    ch.insert_beta_gamma(beta, gamma).unwrap();
    ch.insert_alpha(alpha).unwrap();
    ch.insert_zeta(zeta).unwrap();
    ch
}

#[test]
fn omega_is_a_primitive_fourth_root() {
    let w = omega4();
    assert_eq!(w.square(), Fr::one().neg());
    assert_eq!(w.pow(4), Fr::one());
}

#[test]
fn test_z_polynomial() {
    let mut cs = TurboCS::new();

    let zero = Fr::zero();
    let one = Fr::one();
    let two = one.add(&one);
    let three = two.add(&one);
    let four = three.add(&one);
    let five = four.add(&one);
    let six = five.add(&one);
    let seven = six.add(&one);

    let witness = [one, three, five, four, two, two, seven, six];
    cs.add_variables(&witness);

    cs.insert_add_gate(0 + 2, 4 + 2, 1 + 2);
    cs.insert_add_gate(1 + 2, 4 + 2, 2 + 2);
    cs.insert_add_gate(2 + 2, 4 + 2, 6 + 2);
    cs.insert_add_gate(3 + 2, 5 + 2, 7 + 2);
    cs.pad().unwrap();

    let mut challenges = PlonkChallenges::new();
    challenges.insert_beta_gamma(one, zero).unwrap();
    let perm = cs.compute_permutation();
    let w = cs.extend_witness(&cs.witness.clone());
    let k = [fr(1), fr(11), fr(13), fr(17), fr(19)];
    let q = z_poly(&w, &perm, &domain4(), &k, &challenges).unwrap();

    let q0 = q[0];
    assert_eq!(q0, one);
}

#[test]
fn z_accumulator_closes_to_one_over_the_domain() {
    let mut cs = TurboCS::new();
    let witness = [fr(1), fr(3), fr(5), fr(4), fr(2), fr(2), fr(7), fr(6)];
    cs.add_variables(&witness);
    cs.insert_add_gate(2, 6, 3);
    cs.insert_add_gate(3, 6, 4);
    cs.insert_add_gate(4, 6, 8);
    cs.insert_add_gate(5, 7, 9);
    cs.pad().unwrap();
    let n = cs.size();
    let perm = cs.compute_permutation();
    let w = cs.extend_witness(&cs.witness.clone());
    let group = domain4();
    let k = [fr(1), fr(2), fr(3), fr(4), fr(5)];
    let beta = fr(11);
    let gamma = fr(13);
    let mut ch = PlonkChallenges::new();
    ch.insert_beta_gamma(beta, gamma).unwrap();
    let z = z_poly(&w, &perm, &group, &k, &ch).unwrap();
    assert_eq!(z.len(), n);
    // One more step of the running product, from the last row, gives Z(w^n) = 1.
    let i = n - 1;
    let mut num = Fr::one();
    let mut den = Fr::one();
    for j in 0..5 {
        let f = w[j * n + i];
        num = num.mul(&f.add(&gamma).add(&beta.mul(&k[j].mul(&group[i]))));
        let p = perm[j * n + i];
        let px = k[p / n].mul(&group[p % n]);
        den = den.mul(&f.add(&gamma).add(&beta.mul(&px)));
    }
    assert_eq!(z[i].mul(&num).mul(&den.inv().unwrap()), Fr::one());
}

#[test]
fn z_poly_reports_a_zero_denominator() {
    // With gamma = -(f + beta * k * w^0) the first row's denominator vanishes.
    let mut cs = TurboCS::new();
    let a = cs.new_variable(fr(5));
    cs.insert_add_gate(a, 0, a);
    cs.insert_add_gate(0, 0, 0);
    let perm = cs.compute_permutation();
    let w = cs.extend_witness(&cs.witness.clone());
    let group = vec![Fr::one(), Fr::one().neg()];
    let k = [fr(1), fr(2), fr(3), fr(4), fr(5)];
    let p = perm[0];
    let px = k[p / 2].mul(&group[p % 2]);
    let gamma = w[0].add(&px).neg();
    let mut ch = PlonkChallenges::new();
    ch.insert_beta_gamma(Fr::one(), gamma).unwrap();
    assert_eq!(z_poly(&w, &perm, &group, &k, &ch), Err(PlonkError::DivisionByZero));
}

#[test]
fn first_lagrange_values() {
    let ch = challenges(fr(1), fr(2), fr(3), fr(2));
    let (z_h, l1) = first_lagrange_poly(&ch, 4).unwrap();
    assert_eq!(z_h, fr(15));
    assert_eq!(l1, fr(15));
    let ch = challenges(fr(1), fr(2), fr(3), fr(3));
    let (z_h, l1) = first_lagrange_poly(&ch, 4).unwrap();
    assert_eq!(z_h, fr(80));
    assert_eq!(l1, fr(40));
    let ch = challenges(fr(1), fr(2), fr(3), fr(1));
    assert_eq!(first_lagrange_poly(&ch, 4), Err(PlonkError::DivisionByZero));
}

#[test]
fn lagrange_constant_of_the_first_point_is_one_over_n() {
    let group = domain4();
    let c = compute_lagrange_constant(&group, 0).unwrap();
    assert_eq!(c.mul(&fr(4)), Fr::one());
    let dup = vec![fr(1), fr(2), fr(1)];
    assert_eq!(compute_lagrange_constant(&dup, 0), Err(PlonkError::DivisionByZero));
    let c = compute_lagrange_constant(&[fr(1), fr(3)], 1).unwrap();
    assert_eq!(c.mul(&fr(2)), Fr::one());
}

#[test]
fn public_input_polynomial_at_a_point() {
    let group = domain4();
    let c0 = compute_lagrange_constant(&group, 0).unwrap();
    let x = fr(2);
    let z_h = x.pow(4).sub(&Fr::one());
    let v = eval_pi_poly(&[0], &[fr(8)], &[c0], &z_h, &x, &omega4()).unwrap();
    // 8 * (1/4) * (2^4 - 1) / (2 - 1) = 30
    assert_eq!(v, fr(30));
    // Inputs, rows and constants must match in number.
    assert_eq!(
        eval_pi_poly(&[0], &[fr(8), fr(9)], &[c0], &z_h, &x, &omega4()),
        Err(PlonkError::PublicInputError)
    );
    assert_eq!(
        eval_pi_poly(&[0], &[fr(8)], &[], &z_h, &x, &omega4()),
        Err(PlonkError::PublicInputError)
    );
    // No public input gives zero.
    assert_eq!(eval_pi_poly(&[], &[], &[], &z_h, &x, &omega4()).unwrap(), Fr::zero());
    // At a domain point the denominator vanishes.
    assert_eq!(
        eval_pi_poly(&[0], &[fr(8)], &[c0], &z_h, &Fr::one(), &omega4()),
        Err(PlonkError::DivisionByZero)
    );
}

#[test]
fn r_at_zeta_without_sbox_terms() {
    let ch = challenges(fr(1), fr(0), fr(2), fr(9));
    let proof = ProofEvals {
        w_polys_eval_zeta: vec![fr(1); 5],
        w_polys_eval_zeta_omega: vec![fr(0); 3],
        z_eval_zeta_omega: fr(3),
        s_polys_eval_zeta: vec![fr(1); 4],
        prk_3_poly_eval_zeta: Fr::zero(),
        prk_4_poly_eval_zeta: Fr::zero(),
    };
    let r = r_eval_zeta(&proof, &ch, &fr(6), &fr(5), fr(7), fr(7).inv().unwrap());
    // 2 * 3 * 2^4 * 1 + 5 * 2^2 - 6
    assert_eq!(r, fr(110));
}

#[test]
fn r_at_zeta_with_sbox_terms() {
    let ch = challenges(fr(0), fr(0), fr(1), fr(9));
    let proof = ProofEvals {
        w_polys_eval_zeta: vec![fr(0), fr(0), fr(0), fr(1), fr(0)],
        w_polys_eval_zeta_omega: vec![fr(0), fr(0), fr(0)],
        z_eval_zeta_omega: fr(0),
        s_polys_eval_zeta: vec![fr(0); 4],
        prk_3_poly_eval_zeta: fr(1),
        prk_4_poly_eval_zeta: fr(0),
    };
    let g = fr(2);
    let g_inv = g.inv().unwrap();
    let r = r_eval_zeta(&proof, &ch, &Fr::zero(), &Fr::zero(), g, g_inv);
    // tmp = w3 + g w2 + prk3 = 2 and tmp2 = g w3 + (g^2 + 1) w2 + prk4 = 2:
    // (32 + 2 * 4) + (32 + g^-1) + (32 + 2 * 4) + (32 + g^-1)
    let expected = fr(40 + 32 + 40 + 32).add(&g_inv).add(&g_inv);
    assert_eq!(r, expected);
}

#[test]
fn linearization_scalars_and_combination() {
    let ch = challenges(fr(1), fr(1), fr(2), fr(3));
    let w = [fr(1), fr(2), fr(3), fr(4), fr(5)];
    let s = [fr(1), fr(1), fr(1), fr(1)];
    let k = [fr(1), fr(2), fr(3), fr(4), fr(5)];
    let sc = r_scalars(&w, &s, &k, &fr(2), &fr(1), &ch, &fr(7), &fr(10), 4, 3);
    assert_eq!(sc.len(), 21);
    assert_eq!(sc[0], fr(1));
    assert_eq!(sc[6], Fr::one());
    assert_eq!(sc[12], fr(5).neg());
    // alpha * prod (w_j + 3 k_j + 1) + 7 * alpha^2 = 2 * 5*9*13*17*21 + 28
    assert_eq!(sc[13], fr(2 * 5 * 9 * 13 * 17 * 21 + 28));
    // -(alpha * 1 * 1 * prod_{j<4} (w_j + 1 + 1))
    assert_eq!(sc[14], fr(2 * 3 * 4 * 5 * 6).neg());
    // w1 (w1 - 1) 8 + w2 (w2 - 1) 16 + w3 (w3 - 1) 32
    assert_eq!(sc[15], fr(2 * 8 + 6 * 16 + 12 * 32));
    assert_eq!(sc[16], fr(128));
    assert_eq!(sc[17], fr(256));
    assert_eq!(sc[18], fr(10).neg());
    assert_eq!(sc[19], fr(10 * 81).neg());
    assert_eq!(sc[20], fr(10 * 81 * 81).neg());

    let polys = vec![vec![fr(1), fr(2)], vec![fr(4)], vec![]];
    let scalars = [fr(3), fr(5), fr(9)];
    assert_eq!(linear_combination(&polys, &scalars), vec![fr(23), fr(6)]);
}

#[test]
fn split_quotient_recombines() {
    let t: Vec<Fr> = (1..=10).map(fr).collect();
    let blinds = [fr(7), fr(9)];
    let chunks = split_t(&t, 3, 4, &blinds);
    assert_eq!(chunks.len(), 3);
    assert_eq!(chunks[0], vec![fr(1), fr(2), fr(3), fr(4), fr(7)]);
    assert_eq!(chunks[1], vec![fr(5).sub(&fr(7)), fr(6), fr(7), fr(8), fr(9)]);
    assert_eq!(chunks[2], vec![Fr::zero(), fr(10)]);
    let mut sum = vec![Fr::zero(); 13];
    for (i, c) in chunks.iter().enumerate() {
        for (j, x) in c.iter().enumerate() {
            sum[4 * i + j] = sum[4 * i + j].add(x);
        }
    }
    assert_eq!(&sum[..10], &t[..]);
    assert!(sum[10..].iter().all(|x| x.is_zero()));
    // A short quotient leaves the last chunk holding only the negated blind.
    let chunks = split_t(&[fr(1)], 2, 4, &[fr(3)]);
    assert_eq!(chunks[0], vec![fr(1), fr(0), fr(0), fr(0), fr(3)]);
    assert_eq!(chunks[1], vec![fr(3).neg()]);
}

fn zero_tables(m: usize) -> CosetEvals {
    CosetEvals {
        w: vec![vec![Fr::zero(); m]; 5],
        q: vec![vec![Fr::zero(); m]; 13],
        s: vec![vec![Fr::zero(); m]; 5],
        q_prk: vec![vec![Fr::zero(); m]; 4],
        qb: vec![Fr::zero(); m],
        l1: vec![Fr::zero(); m],
        pi: vec![Fr::zero(); m],
        z: vec![Fr::one(); m],
        coset_quotient: vec![Fr::zero(); m],
    }
}

#[test]
fn quotient_divides_by_the_vanishing_polynomial() {
    let mut e = zero_tables(4);
    e.pi = vec![fr(3), fr(5), fr(6), fr(10)];
    let ch = challenges(Fr::zero(), Fr::zero(), fr(2), fr(9));
    let k = [fr(1), fr(2), fr(3), fr(4), fr(5)];
    let t = t_poly_coset_evals(&e, 2, 4, &k, &ch, &fr(2), &fr(2).inv().unwrap(), &omega4())
        .unwrap();
    // The vanishing polynomial is 2^2 - 1 = 3 on even points and 4 w^2 - 1 = -5 on odd ones.
    assert_eq!(t, vec![fr(1), Fr::one().neg(), fr(2), fr(2).neg()]);
}

#[test]
fn quotient_is_zero_where_every_identity_holds() {
    let mut e = zero_tables(4);
    // An addition gate 1 + 2 = 3 at every point.
    e.w[0] = vec![fr(1); 4];
    e.w[1] = vec![fr(2); 4];
    e.w[4] = vec![fr(3); 4];
    e.q[0] = vec![Fr::one(); 4];
    e.q[1] = vec![Fr::one(); 4];
    e.q[12] = vec![Fr::one(); 4];
    let ch = challenges(Fr::zero(), Fr::zero(), Fr::zero(), fr(9));
    let k = [fr(1), fr(2), fr(3), fr(4), fr(5)];
    let t = t_poly_coset_evals(&e, 2, 4, &k, &ch, &fr(2), &fr(2).inv().unwrap(), &omega4())
        .unwrap();
    assert!(t.iter().all(|x| x.is_zero()));
}

#[test]
fn quotient_setup_and_division_errors() {
    let e = zero_tables(3);
    let ch = challenges(Fr::zero(), Fr::zero(), fr(2), fr(9));
    let k = [fr(1), fr(2), fr(3), fr(4), fr(5)];
    assert_eq!(
        t_poly_coset_evals(&e, 2, 3, &k, &ch, &fr(2), &fr(2), &omega4()),
        Err(PlonkError::SetupError)
    );
    let e = zero_tables(4);
    let k = [fr(1), fr(1), fr(3), fr(4), fr(5)];
    assert_eq!(
        t_poly_coset_evals(&e, 2, 4, &k, &ch, &fr(2), &fr(2), &omega4()),
        Err(PlonkError::DivisionByZero)
    );
}

#[test]
fn public_inputs_on_the_domain() {
    let evals = pi_poly_evals(&[2, 0, 2], &[fr(7), fr(8), fr(9)], 4);
    assert_eq!(evals, vec![fr(8), Fr::zero(), fr(7), Fr::zero()]);
    assert_eq!(pi_poly_evals(&[], &[], 2), vec![Fr::zero(); 2]);
}

#[test]
fn hiding_keeps_values_on_the_subgroup() {
    let mut p = vec![fr(1), fr(2), fr(3), fr(4)];
    hide_polynomial(&mut p, &[fr(5), fr(6)], 4);
    assert_eq!(p, vec![fr(6), fr(8), fr(3), fr(4), fr(5).neg(), fr(6).neg()]);
    // On the fourth roots of unity X^4 = 1, so the values do not change.
    let eval = |c: &[Fr], x: Fr| c.iter().rev().fold(Fr::zero(), |acc, a| acc.mul(&x).add(a));
    let orig = [fr(1), fr(2), fr(3), fr(4)];
    for x in domain4() {
        assert_eq!(eval(&p, x), eval(&orig, x));
    }
    assert_ne!(eval(&p, fr(2)), eval(&orig, fr(2)));
}
