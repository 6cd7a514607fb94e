//! The scalars that prover and verifier both derive from the openings at
//! `zeta`: the linearization coefficients, `r(zeta)`, the first Lagrange
//! basis value and the public-input polynomial at `zeta`.
use crate::challenges::PlonkChallenges;
use crate::cs::{public_input_at, selector_multipliers, vals, TurboCS};
use crate::errors::PlonkError;
use crate::field::{fadd, finv, fmul, fneg, fpow, fsq, fsub, group_field, lemma_fsub_zero_iff, Fr};
use vstd::prelude::*;

verus! {

broadcast use group_field;

/// The openings that a proof carries.
pub struct ProofEvals {
    /// The wire polynomials at `zeta`, one per wire.
    pub w_polys_eval_zeta: Vec<Fr>,
    /// Wires 0, 1 and 2 at `zeta * omega`.
    pub w_polys_eval_zeta_omega: Vec<Fr>,
    /// `Z` at `zeta * omega`.
    pub z_eval_zeta_omega: Fr,
    /// The first four permutation polynomials at `zeta`.
    pub s_polys_eval_zeta: Vec<Fr>,
    /// The third S-box selector at `zeta`.
    pub prk_3_poly_eval_zeta: Fr,
    /// The fourth S-box selector at `zeta`.
    pub prk_4_poly_eval_zeta: Fr,
}

impl ProofEvals {
    /// The openings have the lengths that the protocol fixes.
    pub open spec fn wf(&self) -> bool {
        &&& self.w_polys_eval_zeta@.len() == 5
        &&& self.w_polys_eval_zeta_omega@.len() == 3
        &&& self.s_polys_eval_zeta@.len() == 4
    }
}

/// `alpha * prod_{j < t} (w_j + k_j * beta * zeta + gamma)`.
pub open spec fn z_scalar_prod(
    w: Seq<int>,
    k: Seq<int>,
    alpha: int,
    beta_zeta: int,
    gamma: int,
    t: nat,
) -> int
    decreases t,
{
    if t == 0 {
        alpha
    } else {
        fmul(
            z_scalar_prod(w, k, alpha, beta_zeta, gamma, (t - 1) as nat),
            fadd(fadd(w[t - 1], fmul(k[t - 1], beta_zeta)), gamma),
        )
    }
}

/// The coefficient of `Z` in the linearization: `alpha * prod_j (w_j +
/// beta k_j zeta + gamma) + alpha^2 L1(zeta)`.
pub open spec fn z_scalar(
    w: Seq<int>,
    k: Seq<int>,
    alpha: int,
    beta: int,
    gamma: int,
    zeta: int,
    l1: int,
) -> int {
    fadd(
        z_scalar_prod(w, k, alpha, fmul(beta, zeta), gamma, w.len()),
        fmul(l1, fmul(alpha, alpha)),
    )
}

/// `Z`'s coefficient in `r`, from the wire openings at `zeta`.
pub fn compute_z_scalar_in_r(
    w_polys_eval_zeta: &[Fr],
    k: &[Fr],
    challenges: &PlonkChallenges,
    first_lagrange_eval_zeta: &Fr,
) -> (r: Fr)
    requires
        challenges@.len() > 3,
        k@.len() >= w_polys_eval_zeta@.len(),
    ensures
        r.val() == z_scalar(
            vals(w_polys_eval_zeta@),
            vals(k@),
            challenges@[2].val(),
            challenges@[0].val(),
            challenges@[1].val(),
            challenges@[3].val(),
            first_lagrange_eval_zeta.val(),
        ),
{
    let ch = challenges;
    let beta = ch.get_beta_gamma().unwrap().0;
    let gamma = ch.get_beta_gamma().unwrap().1;
    let alpha = ch.get_alpha().unwrap();
    let zeta = ch.get_zeta().unwrap();
    let alpha_square = alpha.mul(&alpha);
    let beta_zeta = beta.mul(&zeta);
    let ghost wv = vals(w_polys_eval_zeta@);
    let ghost kv = vals(k@);
    let mut z_scalar = alpha;
    let mut i: usize = 0;
    while i < w_polys_eval_zeta.len()
        invariant
            i <= w_polys_eval_zeta@.len(),
            k@.len() >= w_polys_eval_zeta@.len(),
            wv == vals(w_polys_eval_zeta@),
            kv == vals(k@),
            z_scalar.val() == z_scalar_prod(
                wv,
                kv,
                alpha.val(),
                beta_zeta.val(),
                gamma.val(),
                i as nat,
            ),
        decreases w_polys_eval_zeta@.len() - i,
    {
        let tmp = w_polys_eval_zeta[i].add(&k[i].mul(&beta_zeta)).add(&gamma);
        z_scalar = z_scalar.mul(&tmp);
        i = i + 1;
    }
    z_scalar.add(&first_lagrange_eval_zeta.mul(&alpha_square))
}

/// At `zeta`, the vanishing polynomial `zeta^n - 1` of a domain of order `n`
/// and the first Lagrange basis polynomial `(zeta^n - 1) / (zeta - 1)`; fails
/// when `zeta` is one.
pub fn first_lagrange_poly(challenges: &PlonkChallenges, group_order: u64) -> (r: Result<
    (Fr, Fr),
    PlonkError,
>)
    requires
        challenges@.len() > 3,
    ensures
        r is Err <==> challenges@[3].val() == 1,
        r is Err ==> r == Err::<(Fr, Fr), PlonkError>(PlonkError::DivisionByZero),
        r matches Ok((z_h, l1)) ==> {
            let zeta = challenges@[3].val();
            &&& z_h.val() == fsub(fpow(zeta, group_order as nat), 1)
            &&& l1.val() == fmul(z_h.val(), finv(fsub(zeta, 1)))
        },
{
    let zeta = challenges.get_zeta().unwrap();
    let one = Fr::one();
    let zeta_n = zeta.pow(group_order);
    let z_h_eval_zeta = zeta_n.sub(&one);
    let zeta_minus_one = zeta.sub(&one);
    proof {
        lemma_fsub_zero_iff(zeta.val(), 1);
    }
    match zeta_minus_one.inv() {
        Some(inv) => {
            let l1_eval_zeta = z_h_eval_zeta.mul(&inv);
            Ok((z_h_eval_zeta, l1_eval_zeta))
        },
        None => Err(PlonkError::DivisionByZero),
    }
}

/// `prod_{i < t, i != base} (group[base] - group[i])`.
pub open spec fn lagrange_denominator(group: Seq<Fr>, base: int, t: nat) -> int
    decreases t,
{
    if t == 0 {
        1
    } else if t - 1 == base {
        lagrange_denominator(group, base, (t - 1) as nat)
    } else {
        fmul(
            lagrange_denominator(group, base, (t - 1) as nat),
            fsub(group[base].val(), group[t - 1].val()),
        )
    }
}

/// The constant `c_j = 1 / prod_{i != j} (w^j - w^i)`, so that the `j`-th
/// Lagrange basis polynomial is `c_j (X^n - 1) / (X - w^j)`; fails when two
/// domain points coincide.
pub fn compute_lagrange_constant(group: &[Fr], base_index: usize) -> (r: Result<Fr, PlonkError>)
    requires
        base_index < group@.len(),
    ensures
        r is Err <==> lagrange_denominator(group@, base_index as int, group@.len()) == 0,
        r is Err ==> r == Err::<Fr, PlonkError>(PlonkError::DivisionByZero),
        r matches Ok(c) ==> c.val() == finv(
            lagrange_denominator(group@, base_index as int, group@.len()),
        ),
{
    let mut constant_inv = Fr::one();
    let mut i: usize = 0;
    while i < group.len()
        invariant
            i <= group@.len(),
            base_index < group@.len(),
            constant_inv.val() == lagrange_denominator(group@, base_index as int, i as nat),
        decreases group@.len() - i,
    {
        if i != base_index {
            constant_inv = constant_inv.mul(&group[base_index].sub(&group[i]));
        }
        i = i + 1;
    }
    match constant_inv.inv() {
        Some(c) => Ok(c),
        None => Err(PlonkError::DivisionByZero),
    }
}

/// The Lagrange denominator `x - root^c` of public input `t`.
pub open spec fn pi_denominator(c: Seq<usize>, x: int, root: int, t: int) -> int {
    fsub(x, fpow(root, c[t] as nat))
}

/// `sum_{t < m} lc_t / (x - root^{c_t}) * pi_t`.
pub open spec fn pi_sum(
    c: Seq<usize>,
    pi: Seq<Fr>,
    lc: Seq<Fr>,
    x: int,
    root: int,
    m: nat,
) -> int
    decreases m,
{
    if m == 0 {
        0
    } else {
        let t = m - 1;
        fadd(
            pi_sum(c, pi, lc, x, root, (m - 1) as nat),
            fmul(fmul(lc[t].val(), finv(pi_denominator(c, x, root, t))), pi[t].val()),
        )
    }
}

/// The number of public inputs that the evaluation pairs up.
pub open spec fn pi_count(c: Seq<usize>, pi: Seq<Fr>, lc: Seq<Fr>) -> nat {
    if c.len() <= pi.len() && c.len() <= lc.len() {
        c.len()
    } else if pi.len() <= lc.len() {
        pi.len()
    } else {
        lc.len()
    }
}

/// The public-input polynomial at `eval_point`: `z_h * sum_t pi_t c_t /
/// (eval_point - root^{j_t})`, where `j_t` is the row of public input `t` and
/// `c_t` its Lagrange constant. Fails with `PublicInputError` when the
/// public inputs, their rows and their constants differ in number, and with
/// `DivisionByZero` when `eval_point` is one of those domain points.
pub fn eval_pi_poly(
    public_vars_constraint_indices: &[usize],
    public_inputs: &[Fr],
    lagrange_constants: &[Fr],
    z_h_eval_zeta: &Fr,
    eval_point: &Fr,
    root: &Fr,
) -> (r: Result<Fr, PlonkError>)
    ensures
        (public_inputs@.len() != public_vars_constraint_indices@.len()
            || lagrange_constants@.len() != public_vars_constraint_indices@.len()) ==> r
            == Err::<Fr, PlonkError>(PlonkError::PublicInputError),
        (public_inputs@.len() == public_vars_constraint_indices@.len()
            && lagrange_constants@.len() == public_vars_constraint_indices@.len()) ==> ({
            let c = public_vars_constraint_indices@;
            let m = pi_count(c, public_inputs@, lagrange_constants@);
            &&& r is Err <==> exists|t: int|
                0 <= t < m && #[trigger] pi_denominator(c, eval_point.val(), root.val(), t) == 0
            &&& r is Err ==> r == Err::<Fr, PlonkError>(PlonkError::DivisionByZero)
            &&& r matches Ok(v) ==> v.val() == fmul(
                pi_sum(c, public_inputs@, lagrange_constants@, eval_point.val(), root.val(), m),
                z_h_eval_zeta.val(),
            )
        }),
{
    if public_inputs.len() != public_vars_constraint_indices.len() || lagrange_constants.len()
        != public_vars_constraint_indices.len() {
        return Err(PlonkError::PublicInputError);
    }
    let c = public_vars_constraint_indices;
    let ghost m = pi_count(c@, public_inputs@, lagrange_constants@);
    let mut eval = Fr::zero();
    let mut t: usize = 0;
    while t < c.len() && t < public_inputs.len() && t < lagrange_constants.len()
        invariant
            c@ == public_vars_constraint_indices@,
            public_inputs@.len() == c@.len(),
            lagrange_constants@.len() == c@.len(),
            m == pi_count(c@, public_inputs@, lagrange_constants@),
            t <= m,
            forall|u: int|
                0 <= u < t ==> #[trigger] pi_denominator(c@, eval_point.val(), root.val(), u)
                    != 0,
            eval.val() == pi_sum(
                c@,
                public_inputs@,
                lagrange_constants@,
                eval_point.val(),
                root.val(),
                t as nat,
            ),
        decreases m - t,
    {
        assert((c[t as int] as u64) as nat == c[t as int] as nat);
        let root_to_j = root.pow(c[t] as u64);
        let denominator = eval_point.sub(&root_to_j);
        match denominator.inv() {
            Some(denominator_inv) => {
                let lagrange_i = lagrange_constants[t].mul(&denominator_inv);
                eval = eval.add(&lagrange_i.mul(&public_inputs[t]));
            },
            None => {
                assert(pi_denominator(c@, eval_point.val(), root.val(), t as int) == 0);

                return Err(PlonkError::DivisionByZero);
            },
        }
        t = t + 1;
    }
    Ok(eval.mul(z_h_eval_zeta))
}

/// `(tmp - next)^5 + g * sq - sub`, the shape of every S-box identity.
pub open spec fn sbox(tmp: int, next: int, g: int, sq: int, sub: int) -> int {
    fsub(fadd(fpow(fsub(tmp, next), 5), fmul(g, sq)), sub)
}

/// `(tmp - next)^5 + g * sq + g_inv - sub`, the shape of the next-row S-box
/// identities.
pub open spec fn sbox_next(tmp: int, next: int, g: int, sq: int, g_inv: int, sub: int) -> int {
    fsub(fadd(fadd(fpow(fsub(tmp, next), 5), fmul(g, sq)), g_inv), sub)
}

/// `r(zeta)`: the constant part of the linearization, from the openings, the
/// public-input value `pi` and the first Lagrange basis value `l1`.
pub open spec fn r_eval_zeta_spec(
    w: Seq<int>,
    wo: Seq<int>,
    s: Seq<int>,
    z_omega: int,
    prk3: int,
    prk4: int,
    alpha: int,
    beta: int,
    gamma: int,
    pi: int,
    l1: int,
    g: int,
    g_inv: int,
) -> int {
    let a2 = fmul(alpha, alpha);
    let a3 = fmul(a2, alpha);
    let a4 = fmul(a3, alpha);
    let a5 = fmul(a4, alpha);
    let a6 = fmul(a5, alpha);
    let a7 = fmul(a6, alpha);
    let a8 = fmul(a7, alpha);
    let a9 = fmul(a8, alpha);
    let p0 = fmul(alpha, z_omega);
    let p1 = fmul(p0, fadd(fadd(w[0], fmul(beta, s[0])), gamma));
    let p2 = fmul(p1, fadd(fadd(w[1], fmul(beta, s[1])), gamma));
    let p3 = fmul(p2, fadd(fadd(w[2], fmul(beta, s[2])), gamma));
    let p4 = fmul(p3, fadd(fadd(w[3], fmul(beta, s[3])), gamma));
    let term1 = fmul(p4, fadd(w[4], gamma));
    let term2 = fmul(l1, a2);
    let tmp = fadd(fadd(w[3], fmul(g, w[2])), prk3);
    let term3 = fmul(fmul(a6, prk3), sbox(tmp, wo[2], g, fsq(tmp), fadd(w[0], fmul(g, w[1]))));
    let term5 = fmul(fmul(a8, prk3), sbox_next(tmp, wo[2], g, fsq(wo[2]), g_inv, wo[0]));
    let g2p1 = fadd(fsq(g), 1);
    let tmp2 = fadd(fadd(fmul(g, w[3]), fmul(g2p1, w[2])), prk4);
    let term4 = fmul(
        fmul(a7, prk3),
        sbox(tmp2, w[4], g, fsq(tmp2), fadd(fmul(g, w[0]), fmul(g2p1, w[1]))),
    );
    let term6 = fmul(fmul(a9, prk3), sbox_next(tmp2, w[4], g, fsq(w[4]), g_inv, wo[1]));
    fadd(fadd(fadd(fadd(fsub(fadd(term1, term2), pi), term3), term4), term5), term6)
}

/// Evaluates `r` at `zeta` from the proof's openings.
pub fn r_eval_zeta(
    proof: &ProofEvals,
    challenges: &PlonkChallenges,
    pi_eval_zeta: &Fr,
    first_lagrange_eval_zeta: &Fr,
    anemoi_generator: Fr,
    anemoi_generator_inv: Fr,
) -> (r: Fr)
    requires
        proof.wf(),
        challenges@.len() > 2,
    ensures
        r.val() == r_eval_zeta_spec(
            vals(proof.w_polys_eval_zeta@),
            vals(proof.w_polys_eval_zeta_omega@),
            vals(proof.s_polys_eval_zeta@),
            proof.z_eval_zeta_omega.val(),
            proof.prk_3_poly_eval_zeta.val(),
            proof.prk_4_poly_eval_zeta.val(),
            challenges@[2].val(),
            challenges@[0].val(),
            challenges@[1].val(),
            pi_eval_zeta.val(),
            first_lagrange_eval_zeta.val(),
            anemoi_generator.val(),
            anemoi_generator_inv.val(),
        ),
{
    let alpha = challenges.get_alpha().unwrap();
    let beta = challenges.get_beta_gamma().unwrap().0;
    let gamma = challenges.get_beta_gamma().unwrap().1;
    let a2 = alpha.mul(&alpha);
    let a3 = a2.mul(&alpha);
    let a4 = a3.mul(&alpha);
    let a5 = a4.mul(&alpha);
    let a6 = a5.mul(&alpha);
    let a7 = a6.mul(&alpha);
    let a8 = a7.mul(&alpha);
    let a9 = a8.mul(&alpha);
    let w = &proof.w_polys_eval_zeta;
    let wo = &proof.w_polys_eval_zeta_omega;
    let s = &proof.s_polys_eval_zeta;
    let prk3 = proof.prk_3_poly_eval_zeta;
    let prk4 = proof.prk_4_poly_eval_zeta;
    let g = anemoi_generator;
    let g_inv = anemoi_generator_inv;

    let mut term1 = alpha.mul(&proof.z_eval_zeta_omega);
    term1 = term1.mul(&w[0].add(&beta.mul(&s[0])).add(&gamma));
    term1 = term1.mul(&w[1].add(&beta.mul(&s[1])).add(&gamma));
    term1 = term1.mul(&w[2].add(&beta.mul(&s[2])).add(&gamma));
    term1 = term1.mul(&w[3].add(&beta.mul(&s[3])).add(&gamma));
    term1 = term1.mul(&w[4].add(&gamma));
    let term2 = first_lagrange_eval_zeta.mul(&a2);

    let tmp = w[3].add(&g.mul(&w[2])).add(&prk3);
    let d = tmp.sub(&wo[2]).pow(5);
    let term3 = a6.mul(&prk3).mul(
        &d.add(&g.mul(&tmp.square())).sub(&w[0].add(&g.mul(&w[1]))),
    );
    let term5 = a8.mul(&prk3).mul(
        &d.add(&g.mul(&wo[2].square())).add(&g_inv).sub(&wo[0]),
    );

    let g2p1 = g.square().add(&Fr::one());
    let tmp2 = g.mul(&w[3]).add(&g2p1.mul(&w[2])).add(&prk4);
    let d2 = tmp2.sub(&w[4]).pow(5);
    let term4 = a7.mul(&prk3).mul(
        &d2.add(&g.mul(&tmp2.square())).sub(&g.mul(&w[0]).add(&g2p1.mul(&w[1]))),
    );
    let term6 = a9.mul(&prk3).mul(
        &d2.add(&g.mul(&w[4].square())).add(&g_inv).sub(&wo[1]),
    );

    term1.add(&term2).sub(pi_eval_zeta).add(&term3).add(&term4).add(&term5).add(&term6)
}

/// `alpha^e` for `e >= 1`, as a chain of products.
pub open spec fn apow(alpha: int, e: nat) -> int
    decreases e,
{
    if e <= 1 {
        alpha
    } else {
        fmul(apow(alpha, (e - 1) as nat), alpha)
    }
}

/// The coefficient of the last permutation polynomial, before its sign:
/// `alpha * z(zeta w) * beta * prod_{j < 4} (w_j + beta s_j + gamma)`.
pub open spec fn s_last_scalar(
    w: Seq<int>,
    s: Seq<int>,
    z_omega: int,
    alpha: int,
    beta: int,
    gamma: int,
) -> int {
    let p0 = fmul(alpha, fmul(z_omega, beta));
    let p1 = fmul(p0, fadd(fadd(w[0], fmul(beta, s[0])), gamma));
    let p2 = fmul(p1, fadd(fadd(w[1], fmul(beta, s[1])), gamma));
    let p3 = fmul(p2, fadd(fadd(w[2], fmul(beta, s[2])), gamma));
    fmul(p3, fadd(fadd(w[3], fmul(beta, s[3])), gamma))
}

/// The coefficient of the boolean selector: `sum_{j = 1..3} w_j (w_j - 1)
/// alpha^{j + 2}`.
pub open spec fn bool_scalar(w: Seq<int>, alpha: int) -> int {
    let w1 = fmul(fmul(w[1], fsub(w[1], 1)), apow(alpha, 3));
    let w2 = fmul(fmul(w[2], fsub(w[2], 1)), apow(alpha, 4));
    let w3 = fmul(fmul(w[3], fsub(w[3], 1)), apow(alpha, 5));
    fadd(fadd(w1, w2), w3)
}

/// `z_h * factor^i`, the weight of the `i`-th quotient chunk.
pub open spec fn t_weight(z_h: int, factor: int, i: nat) -> int
    decreases i,
{
    if i == 0 {
        z_h
    } else {
        fmul(t_weight(z_h, factor, (i - 1) as nat), factor)
    }
}

/// The coefficients of the linearization `r`, one per committed polynomial in
/// this order: the thirteen selectors, `Z`, the last permutation polynomial,
/// the boolean selector, the first and second S-box selectors, then the
/// `n_t` quotient chunks. Prover and verifier both combine their polynomials
/// or commitments with these.
pub fn r_scalars(
    w_polys_eval_zeta: &[Fr],
    s_polys_eval_zeta: &[Fr],
    k: &[Fr],
    q_prk3_eval_zeta: &Fr,
    z_eval_zeta_omega: &Fr,
    challenges: &PlonkChallenges,
    first_lagrange_eval_zeta: &Fr,
    z_h_eval_zeta: &Fr,
    n_t_polys: u64,
    n_t: usize,
) -> (r: Vec<Fr>)
    requires
        w_polys_eval_zeta@.len() == 5,
        s_polys_eval_zeta@.len() == 4,
        k@.len() == 5,
        challenges@.len() > 3,
        n_t <= usize::MAX - 18,
    ensures
        ({
            let w = vals(w_polys_eval_zeta@);
            let s = vals(s_polys_eval_zeta@);
            let alpha = challenges@[2].val();
            let beta = challenges@[0].val();
            let gamma = challenges@[1].val();
            let zeta = challenges@[3].val();
            let prk3 = q_prk3_eval_zeta.val();
            &&& r@.len() == 18 + n_t
            &&& vals(r@.subrange(0, 13)) == selector_multipliers(w)
            &&& r@[13].val() == z_scalar(
                w,
                vals(k@),
                alpha,
                beta,
                gamma,
                zeta,
                first_lagrange_eval_zeta.val(),
            )
            &&& r@[14].val() == fneg(
                s_last_scalar(w, s, z_eval_zeta_omega.val(), alpha, beta, gamma),
            )
            &&& r@[15].val() == bool_scalar(w, alpha)
            &&& r@[16].val() == fmul(prk3, apow(alpha, 6))
            &&& r@[17].val() == fmul(prk3, apow(alpha, 7))
            &&& forall|i: int|
                0 <= i < n_t ==> (#[trigger] r@[18 + i]).val() == fneg(
                    t_weight(z_h_eval_zeta.val(), fpow(zeta, n_t_polys as nat), i as nat),
                )
        }),
{
    let mut r = TurboCS::eval_selector_multipliers(w_polys_eval_zeta).unwrap();
    assert(vals(r@).len() == 13);
    let ghost r13 = r@;
    let beta = challenges.get_beta_gamma().unwrap().0;
    let gamma = challenges.get_beta_gamma().unwrap().1;
    let alpha = challenges.get_alpha().unwrap();
    let zeta = challenges.get_zeta().unwrap();
    let a2 = alpha.mul(&alpha);
    let a3 = a2.mul(&alpha);
    let a4 = a3.mul(&alpha);
    let a5 = a4.mul(&alpha);
    let a6 = a5.mul(&alpha);
    let a7 = a6.mul(&alpha);
    let one = Fr::one();
    let w = w_polys_eval_zeta;
    let s = s_polys_eval_zeta;
    assert(apow(alpha.val(), 1) == alpha.val());
    assert(a2.val() == apow(alpha.val(), 2));
    assert(a3.val() == apow(alpha.val(), 3));
    assert(a4.val() == apow(alpha.val(), 4));
    assert(a5.val() == apow(alpha.val(), 5));
    assert(a6.val() == apow(alpha.val(), 6));
    assert(a7.val() == apow(alpha.val(), 7));

    let zs = compute_z_scalar_in_r(w, k, challenges, first_lagrange_eval_zeta);
    r.push(zs);

    let mut s_last = alpha.mul(&z_eval_zeta_omega.mul(&beta));
    s_last = s_last.mul(&w[0].add(&beta.mul(&s[0])).add(&gamma));
    s_last = s_last.mul(&w[1].add(&beta.mul(&s[1])).add(&gamma));
    s_last = s_last.mul(&w[2].add(&beta.mul(&s[2])).add(&gamma));
    s_last = s_last.mul(&w[3].add(&beta.mul(&s[3])).add(&gamma));
    r.push(s_last.neg());

    let w1_part = w[1].mul(&w[1].sub(&one)).mul(&a3);
    let w2_part = w[2].mul(&w[2].sub(&one)).mul(&a4);
    let w3_part = w[3].mul(&w[3].sub(&one)).mul(&a5);
    r.push(w1_part.add(&w2_part).add(&w3_part));

    r.push(q_prk3_eval_zeta.mul(&a6));
    r.push(q_prk3_eval_zeta.mul(&a7));

    let factor = zeta.pow(n_t_polys);
    let mut weight = *z_h_eval_zeta;
    let mut i: usize = 0;
    let ghost r0 = r@;
    while i < n_t
        invariant
            r@.len() == 18 + i,
            r0.len() == 18,
            r@.subrange(0, 18) == r0,
            r@[13].val() == z_scalar(
                vals(w_polys_eval_zeta@),
                vals(k@),
                challenges@[2].val(),
                challenges@[0].val(),
                challenges@[1].val(),
                challenges@[3].val(),
                first_lagrange_eval_zeta.val(),
            ),
            r@[14].val() == fneg(
                s_last_scalar(
                    vals(w_polys_eval_zeta@),
                    vals(s_polys_eval_zeta@),
                    z_eval_zeta_omega.val(),
                    challenges@[2].val(),
                    challenges@[0].val(),
                    challenges@[1].val(),
                ),
            ),
            r@[15].val() == bool_scalar(vals(w_polys_eval_zeta@), challenges@[2].val()),
            r@[16].val() == fmul(q_prk3_eval_zeta.val(), apow(challenges@[2].val(), 6)),
            r@[17].val() == fmul(q_prk3_eval_zeta.val(), apow(challenges@[2].val(), 7)),
            i <= n_t,
            n_t <= usize::MAX - 18,
            weight.val() == t_weight(z_h_eval_zeta.val(), factor.val(), i as nat),
            forall|j: int|
                0 <= j < i ==> (#[trigger] r@[18 + j]).val() == fneg(
                    t_weight(z_h_eval_zeta.val(), factor.val(), j as nat),
                ),
        decreases n_t - i,
    {
        r.push(weight.neg());
        weight = weight.mul(&factor);
        i = i + 1;
        assert(r@.subrange(0, 18) =~= r0);
    }
    proof {
        assert(r@.subrange(0, 13) =~= r13);
        assert(r0[13] == r@[13]);
    }
    r
}

/// The public-input polynomial on the circuit domain: at row `i`, the input
/// paired with the first occurrence of `i` among the public constraint
/// indices, and zero on every other row. Interpolating these `n` values gives
/// the polynomial.
pub fn pi_poly_evals(
    public_vars_constraint_indices: &[usize],
    pi: &[Fr],
    n: usize,
) -> (r: Vec<Fr>)
    ensures
        r@.len() == n,
        forall|i: int|
            0 <= i < n ==> (#[trigger] r@[i]).val() == public_input_at(
                public_vars_constraint_indices@,
                pi@,
                i,
            ),
{
    let c = public_vars_constraint_indices;
    let mut evals: Vec<Fr> = Vec::new();
    let mut i: usize = 0;
    while i < n
        invariant
            c@ == public_vars_constraint_indices@,
            i <= n,
            evals@.len() == i,
            forall|j: int|
                0 <= j < i ==> (#[trigger] evals@[j]).val() == public_input_at(c@, pi@, j),
        decreases n - i,
    {
        let mut k: usize = 0;
        let mut found = Fr::zero();
        let mut done = false;
        proof {
            assert(c@.subrange(0, c@.len() as int) =~= c@);
            assert(pi@.subrange(0, pi@.len() as int) =~= pi@);
        }
        while k < c.len() && k < pi.len() && !done
            invariant
                c@ == public_vars_constraint_indices@,
                i < n,
                k <= c@.len(),
                k <= pi@.len(),
                done ==> found.val() == public_input_at(c@, pi@, i as int),
                !done ==> found.val() == 0,
                evals@.len() == i,
                forall|j: int|
                    0 <= j < i ==> (#[trigger] evals@[j]).val() == public_input_at(c@, pi@, j),
                !done ==> public_input_at(c@, pi@, i as int) == public_input_at(
                    c@.subrange(k as int, c@.len() as int),
                    pi@.subrange(k as int, pi@.len() as int),
                    i as int,
                ),
            decreases c@.len() - k,
        {
            let ghost cs = c@.subrange(k as int, c@.len() as int);
            let ghost ps = pi@.subrange(k as int, pi@.len() as int);
            if c[k] == i {
                assert(cs[0] == i && ps[0] == pi@[k as int]);
                found = pi[k];
                done = true;
            } else {
                proof {
                    assert(cs.drop_first() =~= c@.subrange(k + 1, c@.len() as int));
                    assert(ps.drop_first() =~= pi@.subrange(k + 1, pi@.len() as int));
                }
            }
            k = k + 1;
        }
        proof {
            if !done {
                let cs = c@.subrange(k as int, c@.len() as int);
                let ps = pi@.subrange(k as int, pi@.len() as int);
                assert(cs.len() == 0 || ps.len() == 0);
            }
        }
        evals.push(found);
        i = i + 1;
    }
    evals
}

} // verus!
