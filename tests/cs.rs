use plonk_core::challenges::PlonkChallenges;
use plonk_core::cs::TurboCS;
use plonk_core::errors::PlonkError;
use plonk_core::field::Fr;

fn fr(x: u64) -> Fr {
    Fr::from_u64(x)
}

/// Builds the addition circuit over `1, 3, 5, 4, 2, 2, 7, 6`.
fn add_circuit() -> TurboCS {
    let mut cs = TurboCS::new();
    let witness = [fr(1), fr(3), fr(5), fr(4), fr(2), fr(2), fr(7), fr(6)];
    cs.add_variables(&witness);
    cs.insert_add_gate(0 + 2, 4 + 2, 1 + 2);
    cs.insert_add_gate(1 + 2, 4 + 2, 2 + 2);
    cs.insert_add_gate(2 + 2, 4 + 2, 6 + 2);
    cs.insert_add_gate(3 + 2, 5 + 2, 7 + 2);
    cs
}

#[test]
fn new_circuit_holds_zero_and_one() {
    let cs = TurboCS::new();
    assert_eq!(cs.size(), 0);
    assert_eq!(cs.num_vars(), 2);
    assert_eq!(cs.witness[cs.zero_var()], Fr::zero());
    assert_eq!(cs.witness[cs.one_var()], Fr::one());
}

#[test]
fn satisfied_circuit_verifies() {
    let mut cs = add_circuit();
    cs.pad().unwrap();
    assert_eq!(cs.size(), 4);
    let w = cs.witness.clone();
    assert_eq!(cs.verify_witness(&w, &[]), Ok(()));
}

#[test]
fn every_gate_residual_is_zero_on_a_satisfying_witness() {
    let cs = add_circuit();
    for g in cs.gates.iter() {
        let wv: Vec<Fr> = g.wires.iter().map(|v| cs.witness[*v]).collect();
        let r = TurboCS::eval_gate_func(&wv, &g.selectors, &Fr::zero()).unwrap();
        assert!(r.is_zero());
    }
}

#[test]
fn changing_one_witness_value_breaks_verification() {
    let cs = add_circuit();
    for v in 2..10 {
        let mut w = cs.witness.clone();
        w[v] = w[v].add(&Fr::one());
        assert_eq!(cs.verify_witness(&w, &[]), Err(PlonkError::VerificationError));
    }
}

#[test]
fn mul_and_constant_gates() {
    let mut cs = TurboCS::new();
    let a = cs.new_variable(fr(6));
    let b = cs.new_variable(fr(7));
    let c = cs.new_variable(fr(42));
    cs.insert_mul_gate(a, b, c);
    cs.insert_constant_gate(c, fr(42));
    let w = cs.witness.clone();
    assert!(cs.verify_witness(&w, &[]).is_ok());
    let mut bad = w.clone();
    bad[c] = fr(41);
    assert!(cs.verify_witness(&bad, &[]).is_err());
}

#[test]
fn boolean_constraint_on_wires() {
    let mut cs = TurboCS::new();
    let a = cs.new_variable(fr(1));
    let b = cs.new_variable(fr(0));
    let c = cs.new_variable(fr(1));
    let d = cs.new_variable(fr(2));
    cs.insert_add_gate(a, b, c);
    cs.insert_gate([0, a, b, c, 0], [Fr::zero(); 13]);
    cs.attach_boolean_constraint_to_gate();
    let w = cs.witness.clone();
    assert!(cs.verify_witness(&w, &[]).is_ok());
    cs.insert_gate([0, a, d, c, 0], [Fr::zero(); 13]);
    cs.attach_boolean_constraint_to_gate();
    let w = cs.witness.clone();
    assert!(cs.verify_witness(&w, &[]).is_err());
}

#[test]
fn public_inputs_enter_their_rows() {
    let mut cs = TurboCS::new();
    let a = cs.new_variable(fr(9));
    cs.prepare_pi_variable(a);
    let w = cs.witness.clone();
    assert!(cs.verify_witness(&w, &[fr(9)]).is_ok());
    assert!(cs.verify_witness(&w, &[fr(8)]).is_err());
    // The wrong number of public inputs is refused.
    assert!(cs.verify_witness(&w, &[]).is_err());
}

#[test]
fn witness_of_wrong_length_is_refused() {
    let cs = add_circuit();
    let w = vec![Fr::zero(); 3];
    assert_eq!(cs.verify_witness(&w, &[]), Err(PlonkError::VerificationError));
}

#[test]
fn pad_reaches_the_next_power_of_two_and_is_idempotent() {
    let mut cs = TurboCS::new();
    cs.pad().unwrap();
    assert_eq!(cs.size(), 1);
    let mut cs = TurboCS::new();
    let a = cs.new_variable(fr(1));
    cs.insert_constant_gate(a, fr(1));
    cs.insert_constant_gate(a, fr(1));
    cs.insert_constant_gate(a, fr(1));
    assert_eq!(cs.size(), 3);
    cs.pad().unwrap();
    assert_eq!(cs.size(), 4);
    for g in cs.gates[3..].iter() {
        assert_eq!(g.wires, [0; 5]);
        assert!(g.selectors.iter().all(|s| s.is_zero()));
    }
    cs.pad().unwrap();
    assert_eq!(cs.size(), 4);
    let w = cs.witness.clone();
    assert!(cs.verify_witness(&w, &[]).is_ok());
}

#[test]
fn pad_refuses_a_circuit_with_no_domain() {
    let mut cs = add_circuit();
    let a = cs.new_variable(fr(1));
    cs.insert_constant_gate(a, fr(1));
    assert_eq!(cs.size(), 5);
    assert_eq!(cs.pad(), Err(PlonkError::GroupNotFound(5)));
    assert_eq!(cs.size(), 5);
}

#[test]
fn permutation_follows_each_variable_around_its_cycle() {
    let mut cs = add_circuit();
    cs.pad().unwrap();
    let n = cs.size();
    let perm = cs.compute_permutation();
    assert_eq!(perm.len(), 5 * n);
    let mut flat = Vec::new();
    for w in 0..5 {
        for g in 0..n {
            flat.push(cs.gates[g].wires[w]);
        }
    }
    for p in 0..flat.len() {
        assert_eq!(flat[perm[p]], flat[p]);
        let count = flat.iter().filter(|x| **x == flat[p]).count();
        for q in 0..flat.len() {
            if flat[q] == flat[p] {
                let mut cur = p;
                let mut steps = 0;
                while cur != q {
                    cur = perm[cur];
                    steps += 1;
                    assert!(steps < count);
                }
            }
        }
    }
    // Variable 6 (the value 2) sits on wire 1 of gates 0, 1 and 2.
    assert_eq!(perm[n], n + 1);
    assert_eq!(perm[n + 1], n + 2);
}

#[test]
fn permutation_of_a_lone_variable_is_a_fixed_point() {
    let mut cs = TurboCS::new();
    let a = cs.new_variable(fr(5));
    let b = cs.new_variable(fr(6));
    let c = cs.new_variable(fr(11));
    cs.insert_add_gate(a, b, c);
    let perm = cs.compute_permutation();
    assert_eq!(perm[0], 0);
    assert_eq!(perm[1], 1);
    assert_eq!(perm[4], 4);
    // Wires 2 and 3 both hold the zero variable.
    assert_eq!(perm[2], 3);
    assert_eq!(perm[3], 2);
}

#[test]
fn extend_witness_lays_out_wire_after_wire() {
    let cs = add_circuit();
    let w = cs.witness.clone();
    let ext = cs.extend_witness(&w);
    let n = cs.size();
    assert_eq!(ext.len(), 5 * n);
    assert_eq!(ext[0], fr(1));
    assert_eq!(ext[n], fr(2));
    assert_eq!(ext[4 * n], fr(3));
    assert_eq!(ext[4 * n + 3], fr(6));
    assert_eq!(ext[2 * n], Fr::zero());
}

#[test]
fn gate_function_value_and_multipliers() {
    let w = [fr(2), fr(3), fr(4), fr(5), fr(6)];
    let mut q = [Fr::zero(); 13];
    for (i, x) in q.iter_mut().enumerate() {
        *x = fr(i as u64 + 1);
    }
    let pi = fr(10);
    let r = TurboCS::eval_gate_func(&w, &q, &pi).unwrap();
    // 1*2 + 2*3 + 3*4 + 4*5 + 5*6 + 6*20 + (7 + 10) + 8*720
    //   + 9*32 + 10*243 + 11*1024 + 12*3125 - 13*6
    let expected: u64 = 2 + 6 + 12 + 20 + 30 + 120 + 17 + 5760 + 288 + 2430 + 11264 + 37500 - 78;
    assert_eq!(r, fr(expected));
    let m = TurboCS::eval_selector_multipliers(&w).unwrap();
    assert_eq!(m.len(), 13);
    assert_eq!(m[4], fr(6));
    assert_eq!(m[7], fr(720));
    assert_eq!(m[8], fr(32));
    assert_eq!(m[12], fr(6).neg());
    // A gate's function is its selectors against their multipliers, plus pi.
    let mut sum = pi;
    for i in 0..13 {
        sum = sum.add(&q[i].mul(&m[i]));
    }
    assert_eq!(sum, r);
    assert_eq!(
        TurboCS::eval_gate_func(&w[..4], &q, &pi),
        Err(PlonkError::FuncParamsError)
    );
    assert!(TurboCS::eval_selector_multipliers(&w[..3]).is_err());
}

#[test]
fn challenges_are_set_in_order() {
    let mut ch = PlonkChallenges::new();
    assert!(ch.get_beta_gamma().is_err());
    assert_eq!(ch.insert_alpha(fr(3)), Err(PlonkError::ChallengeError));
    assert!(ch.insert_beta_gamma(fr(1), fr(2)).is_ok());
    assert!(ch.insert_beta_gamma(fr(1), fr(2)).is_err());
    assert_eq!(ch.get_beta_gamma().unwrap(), (fr(1), fr(2)));
    assert!(ch.get_alpha().is_err());
    assert!(ch.insert_zeta(fr(4)).is_err());
    assert!(ch.insert_alpha(fr(3)).is_ok());
    assert_eq!(ch.get_alpha().unwrap(), fr(3));
    assert!(ch.insert_zeta(fr(4)).is_ok());
    assert_eq!(ch.get_zeta().unwrap(), fr(4));
    assert!(ch.get_u().is_err());
    assert!(ch.insert_u(fr(5)).is_ok());
    assert_eq!(ch.get_u().unwrap(), fr(5));
    assert!(ch.insert_u(fr(5)).is_err());
}

#[test]
fn wiring_and_selector_columns() {
    let cs = add_circuit();
    assert_eq!(TurboCS::n_wires_per_gate(), 5);
    assert_eq!(cs.num_selectors(), 13);
    let wiring = cs.wiring();
    assert_eq!(wiring.len(), 5);
    assert_eq!(wiring[0], vec![2, 3, 4, 5]);
    assert_eq!(wiring[1], vec![6, 6, 6, 7]);
    assert_eq!(wiring[2], vec![0, 0, 0, 0]);
    assert_eq!(wiring[4], vec![3, 4, 8, 9]);
    assert_eq!(cs.selector(0).unwrap(), vec![Fr::one(); 4]);
    assert_eq!(cs.selector(4).unwrap(), vec![Fr::zero(); 4]);
    assert_eq!(cs.selector(12).unwrap(), vec![Fr::one(); 4]);
    assert_eq!(cs.selector(13), Err(PlonkError::FuncParamsError));
}
