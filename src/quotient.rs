//! The quotient polynomial on the coset `k_1 <w_m>` of the quotient domain:
//! at every point, the random combination of gate, permutation, boundary,
//! boolean and S-box identities, divided by the vanishing polynomial.
use crate::challenges::PlonkChallenges;
use crate::cs::{gate_residual, vals, TurboCS};
use crate::errors::PlonkError;
use crate::field::{
    batch_inversion, fadd, finv, fmul, fpow, fsq, fsub, group_field, lemma_mul_inv_cancel, Fr,
};
use crate::linearization::{apow, sbox, sbox_next};
use vstd::prelude::*;

verus! {

broadcast use group_field;

/// The evaluations on the coset of the quotient domain that the quotient
/// needs, each table `m` long.
pub struct CosetEvals {
    /// The five wire polynomials.
    pub w: Vec<Vec<Fr>>,
    /// The thirteen selector polynomials.
    pub q: Vec<Vec<Fr>>,
    /// The five permutation polynomials.
    pub s: Vec<Vec<Fr>>,
    /// The four S-box selector polynomials.
    pub q_prk: Vec<Vec<Fr>>,
    /// The boolean selector.
    pub qb: Vec<Fr>,
    /// The first Lagrange basis polynomial.
    pub l1: Vec<Fr>,
    /// The public-input polynomial.
    pub pi: Vec<Fr>,
    /// The permutation accumulator `Z`.
    pub z: Vec<Fr>,
    /// The coset points themselves.
    pub coset_quotient: Vec<Fr>,
}

/// Value at `p` of table `j`.
pub open spec fn tv(tab: Seq<Vec<Fr>>, j: int, p: int) -> int {
    tab[j]@[p].val()
}

/// Every table has the number of rows and the length `m` that the quotient
/// reads.
pub open spec fn tables_wf(e: &CosetEvals, m: nat) -> bool {
    &&& e.w@.len() == 5
    &&& e.q@.len() == 13
    &&& e.s@.len() == 5
    &&& e.q_prk@.len() == 4
    &&& forall|j: int| 0 <= j < 5 ==> (#[trigger] e.w@[j])@.len() == m
    &&& forall|j: int| 0 <= j < 13 ==> (#[trigger] e.q@[j])@.len() == m
    &&& forall|j: int| 0 <= j < 5 ==> (#[trigger] e.s@[j])@.len() == m
    &&& forall|j: int| 0 <= j < 4 ==> (#[trigger] e.q_prk@[j])@.len() == m
    &&& e.qb@.len() == m
    &&& e.l1@.len() == m
    &&& e.pi@.len() == m
    &&& e.z@.len() == m
    &&& e.coset_quotient@.len() == m
}

/// The challenges and constants that the quotient combines with.
pub struct QuotientParams {
    pub alpha: int,
    pub beta: int,
    pub gamma: int,
    pub g: int,
    pub g_inv: int,
}

/// `alpha z(X) prod_j (w_j(X) + gamma + beta k_j X)` at point `p`.
pub open spec fn perm_num_term(e: &CosetEvals, k: Seq<Fr>, a: QuotientParams, p: int) -> int {
    let f = |j: int|
        fadd(
            fadd(tv(e.w@, j, p), a.gamma),
            fmul(a.beta, fmul(k[j].val(), e.coset_quotient@[p].val())),
        );
    fmul(fmul(fmul(fmul(fmul(fmul(a.alpha, e.z@[p].val()), f(0)), f(1)), f(2)), f(3)), f(4))
}

/// `alpha z(w X) prod_j (w_j(X) + gamma + beta s_j(X))` at point `p`, with
/// `next` the point one row on.
pub open spec fn perm_den_term(e: &CosetEvals, a: QuotientParams, p: int, next: int) -> int {
    let f = |j: int| fadd(fadd(tv(e.w@, j, p), a.gamma), fmul(a.beta, tv(e.s@, j, p)));
    fmul(fmul(fmul(fmul(fmul(fmul(a.alpha, e.z@[next].val()), f(0)), f(1)), f(2)), f(3)), f(4))
}

/// The numerator of the quotient at point `p`; `next` is the point one row
/// on, `p + factor` cyclically.
pub open spec fn t_numerator(e: &CosetEvals, k: Seq<Fr>, a: QuotientParams, p: int, next: int) -> int {
    let w = |j: int| tv(e.w@, j, p);
    let wn = |j: int| tv(e.w@, j, next);
    let prk = |j: int| tv(e.q_prk@, j, p);
    let qb = e.qb@[p].val();
    let g = a.g;
    let term1 = gate_residual(
        Seq::new(5, |j: int| tv(e.w@, j, p)),
        Seq::new(13, |j: int| tv(e.q@, j, p)),
        e.pi@[p].val(),
    );
    let term2 = perm_num_term(e, k, a, p);
    let term3 = perm_den_term(e, a, p, next);
    let term4 = fmul(fmul(apow(a.alpha, 2), e.l1@[p].val()), fsub(e.z@[p].val(), 1));
    let term5 = fmul(fmul(fmul(apow(a.alpha, 3), qb), w(1)), fsub(w(1), 1));
    let term6 = fmul(fmul(fmul(apow(a.alpha, 4), qb), w(2)), fsub(w(2), 1));
    let term7 = fmul(fmul(fmul(apow(a.alpha, 5), qb), w(3)), fsub(w(3), 1));
    let g2p1 = fadd(fsq(g), 1);
    let tmp = fadd(fadd(w(3), fmul(g, w(2))), prk(2));
    let term8 = fmul(
        fmul(apow(a.alpha, 6), prk(2)),
        sbox(tmp, wn(2), g, fsq(tmp), fadd(fadd(w(0), fmul(g, w(1))), prk(0))),
    );
    let term10 = fmul(
        fmul(apow(a.alpha, 8), prk(2)),
        sbox_next(tmp, wn(2), g, fsq(wn(2)), a.g_inv, wn(0)),
    );
    let tmp2 = fadd(fadd(fmul(g, w(3)), fmul(g2p1, w(2))), prk(3));
    let term9 = fmul(
        fmul(apow(a.alpha, 7), prk(2)),
        sbox(tmp2, w(4), g, fsq(tmp2), fadd(fadd(fmul(g, w(0)), fmul(g2p1, w(1))), prk(1))),
    );
    let term11 = fmul(
        fmul(apow(a.alpha, 9), prk(2)),
        sbox_next(tmp2, w(4), g, fsq(w(4)), a.g_inv, wn(1)),
    );
    let s = fadd(fadd(fadd(fadd(fadd(term1, term2), fsub(term4, term3)), term5), term6), term7);
    fsub(fsub(fsub(fsub(s, term8), term9), term10), term11)
}

/// `(k_1 g^i)^n`: the `i`-th power of the coset shift times the domain
/// generator, raised to the circuit size.
pub open spec fn zh_multiplier(k1: int, gen: int, n: nat, i: nat) -> int
    decreases i,
{
    if i == 0 {
        fpow(k1, n)
    } else {
        fmul(zh_multiplier(k1, gen, n, (i - 1) as nat), fpow(gen, n))
    }
}

/// The vanishing polynomial `X^n - 1` of the circuit domain at the `i`-th
/// coset point; it takes only `factor` distinct values there.
pub open spec fn zh_coset(k1: int, gen: int, n: nat, i: nat) -> int {
    fsub(zh_multiplier(k1, gen, n, i), 1)
}

/// The inverses of the vanishing polynomial on the first `factor` coset
/// points; fails when one of them is zero.
pub fn z_h_inv_coset_evals(k1: &Fr, group_gen_m: &Fr, n: u64, factor: usize) -> (r: Result<
    Vec<Fr>,
    PlonkError,
>)
    ensures
        r is Err <==> exists|i: int|
            0 <= i < factor && #[trigger] zh_coset(k1.val(), group_gen_m.val(), n as nat, i as nat)
                == 0,
        r is Err ==> r == Err::<Vec<Fr>, PlonkError>(PlonkError::DivisionByZero),
        r matches Ok(v) ==> {
            &&& v@.len() == factor
            &&& forall|i: int|
                0 <= i < factor ==> (#[trigger] v@[i]).val() == finv(
                    zh_coset(k1.val(), group_gen_m.val(), n as nat, i as nat),
                ) && fmul(v@[i].val(), zh_coset(k1.val(), group_gen_m.val(), n as nat, i as nat))
                    == 1
        },
{
    let one = Fr::one();
    let group_gen_pow_n = group_gen_m.pow(n);
    let mut multiplier = k1.pow(n);
    let mut evals: Vec<Fr> = Vec::new();
    let mut i: usize = 0;
    while i < factor
        invariant
            i <= factor,
            one.val() == 1,
            group_gen_pow_n.val() == fpow(group_gen_m.val(), n as nat),
            multiplier.val() == zh_multiplier(k1.val(), group_gen_m.val(), n as nat, i as nat),
            evals@.len() == i,
            forall|j: int| 0 <= j < i ==> (#[trigger] evals@[j]).val() != 0,
            forall|j: int|
                0 <= j < i ==> (#[trigger] evals@[j]).val() == zh_coset(
                    k1.val(),
                    group_gen_m.val(),
                    n as nat,
                    j as nat,
                ),
        decreases factor - i,
    {
        let eval = multiplier.sub(&one);
        if eval.is_zero() {
            let ghost j0: int = i as int;
            assert(0 <= j0 < factor && zh_coset(k1.val(), group_gen_m.val(), n as nat, j0 as nat)
                == 0);
            assert(exists|j: int|
                0 <= j < factor && #[trigger] zh_coset(k1.val(), group_gen_m.val(), n as nat, j as nat)
                    == 0);
            return Err(PlonkError::DivisionByZero);
        }
        evals.push(eval);
        multiplier = multiplier.mul(&group_gen_pow_n);
        i = i + 1;
    }
    let ghost e0 = evals@;
    batch_inversion(&mut evals);
    assert forall|i: int|
        0 <= i < factor implies #[trigger] zh_coset(
        k1.val(),
        group_gen_m.val(),
        n as nat,
        i as nat,
    ) != 0 by {
        assert(e0[i].val() != 0);
    }
    Ok(evals)
}

/// The numerator of the quotient at coset point `point`, reading the next
/// row at `next`.
fn t_numerator_at(
    e: &CosetEvals,
    k: &[Fr],
    alpha: &Fr,
    beta: &Fr,
    gamma: &Fr,
    g: &Fr,
    g_inv: &Fr,
    point: usize,
    next: usize,
    Ghost(m): Ghost<nat>,
) -> (r: Fr)
    requires
        tables_wf(e, m),
        k@.len() == 5,
        point < m,
        next < m,
    ensures
        r.val() == t_numerator(
            e,
            k@,
            QuotientParams {
                alpha: alpha.val(),
                beta: beta.val(),
                gamma: gamma.val(),
                g: g.val(),
                g_inv: g_inv.val(),
            },
            point as int,
            next as int,
        ),
{
    let one = Fr::one();
    let w0 = e.w[0][point];
    let w1 = e.w[1][point];
    let w2 = e.w[2][point];
    let w3 = e.w[3][point];
    let w4 = e.w[4][point];
    let wv = vec![w0, w1, w2, w3, w4];
    let mut qv: Vec<Fr> = Vec::new();
    let mut j: usize = 0;
    while j < 13
        invariant
            tables_wf(e, m),
            point < m,
            j <= 13,
            qv@.len() == j,
            forall|i: int| 0 <= i < j ==> (#[trigger] qv@[i]).val() == tv(e.q@, i, point as int),
        decreases 13 - j,
    {
        qv.push(e.q[j][point]);
        j = j + 1;
    }
    proof {
        assert(vals(wv@) =~= Seq::new(5, |j: int| tv(e.w@, j, point as int)));
        assert(vals(qv@) =~= Seq::new(13, |j: int| tv(e.q@, j, point as int)));
    }
    let term1 = TurboCS::eval_gate_func(wv.as_slice(), qv.as_slice(), &e.pi[point]).unwrap();

    let cq = e.coset_quotient[point];
    let mut term2 = alpha.mul(&e.z[point]);
    term2 = term2.mul(&w0.add(gamma).add(&beta.mul(&k[0].mul(&cq))));
    term2 = term2.mul(&w1.add(gamma).add(&beta.mul(&k[1].mul(&cq))));
    term2 = term2.mul(&w2.add(gamma).add(&beta.mul(&k[2].mul(&cq))));
    term2 = term2.mul(&w3.add(gamma).add(&beta.mul(&k[3].mul(&cq))));
    term2 = term2.mul(&w4.add(gamma).add(&beta.mul(&k[4].mul(&cq))));

    let mut term3 = alpha.mul(&e.z[next]);
    term3 = term3.mul(&w0.add(gamma).add(&beta.mul(&e.s[0][point])));
    term3 = term3.mul(&w1.add(gamma).add(&beta.mul(&e.s[1][point])));
    term3 = term3.mul(&w2.add(gamma).add(&beta.mul(&e.s[2][point])));
    term3 = term3.mul(&w3.add(gamma).add(&beta.mul(&e.s[3][point])));
    term3 = term3.mul(&w4.add(gamma).add(&beta.mul(&e.s[4][point])));

    let a2 = alpha.mul(alpha);
    let a3 = a2.mul(alpha);
    let a4 = a3.mul(alpha);
    let a5 = a4.mul(alpha);
    let a6 = a5.mul(alpha);
    let a7 = a6.mul(alpha);
    let a8 = a7.mul(alpha);
    let a9 = a8.mul(alpha);
    proof {
        let al = alpha.val();
        assert(apow(al, 1) == al);
        assert(a2.val() == apow(al, 2));
        assert(a3.val() == apow(al, 3));
        assert(a4.val() == apow(al, 4));
        assert(a5.val() == apow(al, 5));
        assert(a6.val() == apow(al, 6));
        assert(a7.val() == apow(al, 7));
        assert(a8.val() == apow(al, 8));
        assert(a9.val() == apow(al, 9));
    }

    let term4 = a2.mul(&e.l1[point]).mul(&e.z[point].sub(&one));
    let qb = e.qb[point];
    let term5 = a3.mul(&qb).mul(&w1).mul(&w1.sub(&one));
    let term6 = a4.mul(&qb).mul(&w2).mul(&w2.sub(&one));
    let term7 = a5.mul(&qb).mul(&w3).mul(&w3.sub(&one));

    let w0n = e.w[0][next];
    let w1n = e.w[1][next];
    let w2n = e.w[2][next];
    let prk1 = e.q_prk[0][point];
    let prk2 = e.q_prk[1][point];
    let prk3 = e.q_prk[2][point];
    let prk4 = e.q_prk[3][point];
    let g2p1 = g.square().add(&one);

    let tmp = w3.add(&g.mul(&w2)).add(&prk3);
    let d = tmp.sub(&w2n).pow(5);
    let term8 = a6.mul(&prk3).mul(
        &d.add(&g.mul(&tmp.square())).sub(&w0.add(&g.mul(&w1)).add(&prk1)),
    );
    let term10 = a8.mul(&prk3).mul(&d.add(&g.mul(&w2n.square())).add(g_inv).sub(&w0n));

    let tmp2 = g.mul(&w3).add(&g2p1.mul(&w2)).add(&prk4);
    let d2 = tmp2.sub(&w4).pow(5);
    let term9 = a7.mul(&prk3).mul(
        &d2.add(&g.mul(&tmp2.square())).sub(&g.mul(&w0).add(&g2p1.mul(&w1)).add(&prk2)),
    );
    let term11 = a9.mul(&prk3).mul(&d2.add(&g.mul(&w4.square())).add(g_inv).sub(&w1n));

    term1.add(&term2).add(&term4.sub(&term3)).add(&term5).add(&term6).add(&term7).sub(
        &term8,
    ).sub(&term9).sub(&term10).sub(&term11)
}

/// The quotient on the `m` coset points: the numerator at each point, with
/// the next row `factor = m / n` points on (cyclically), times the inverse of
/// the vanishing polynomial there. Fails with `SetupError` when `n` does not
/// divide `m`, and with `DivisionByZero` when the vanishing polynomial is
/// zero on the coset.
pub fn t_poly_coset_evals(
    e: &CosetEvals,
    n: usize,
    m: usize,
    k: &[Fr],
    challenges: &PlonkChallenges,
    anemoi_generator: &Fr,
    anemoi_generator_inv: &Fr,
    group_gen_m: &Fr,
) -> (r: Result<Vec<Fr>, PlonkError>)
    requires
        tables_wf(e, m as nat),
        n >= 1,
        k@.len() == 5,
        challenges@.len() > 2,
    ensures
        (m % n != 0) ==> r == Err::<Vec<Fr>, PlonkError>(PlonkError::SetupError),
        m % n == 0 ==> {
            let factor = m / n;
            let a = QuotientParams {
                alpha: challenges@[2].val(),
                beta: challenges@[0].val(),
                gamma: challenges@[1].val(),
                g: anemoi_generator.val(),
                g_inv: anemoi_generator_inv.val(),
            };
            &&& r is Err <==> exists|i: int|
                0 <= i < factor && #[trigger] zh_coset(
                    k@[1].val(),
                    group_gen_m.val(),
                    n as nat,
                    i as nat,
                ) == 0
            &&& r is Err ==> r == Err::<Vec<Fr>, PlonkError>(PlonkError::DivisionByZero)
            &&& r matches Ok(v) ==> {
                &&& v@.len() == m
                &&& forall|p: int|
                    0 <= p < m ==> (#[trigger] v@[p]).val() == fmul(
                        t_numerator(e, k@, a, p, (p + factor) % (m as int)),
                        finv(
                            zh_coset(
                                k@[1].val(),
                                group_gen_m.val(),
                                n as nat,
                                (p % (factor as int)) as nat,
                            ),
                        ),
                    )
                &&& forall|p: int|
                    0 <= p < m ==> fmul(
                        (#[trigger] v@[p]).val(),
                        zh_coset(
                            k@[1].val(),
                            group_gen_m.val(),
                            n as nat,
                            (p % (factor as int)) as nat,
                        ),
                    ) == t_numerator(e, k@, a, p, (p + factor) % (m as int))
            }
        },
{
    let factor = m / n;
    if m % n != 0 {
        return Err(PlonkError::SetupError);
    }
    assert((n as u64) as nat == n as nat);
    let zh_inv = match z_h_inv_coset_evals(&k[1], group_gen_m, n as u64, factor) {
        Ok(v) => v,
        Err(err) => {
            return Err(err);
        },
    };
    let beta = challenges.get_beta_gamma().unwrap().0;
    let gamma = challenges.get_beta_gamma().unwrap().1;
    let alpha = challenges.get_alpha().unwrap();
    let ghost a = QuotientParams {
        alpha: alpha.val(),
        beta: beta.val(),
        gamma: gamma.val(),
        g: anemoi_generator.val(),
        g_inv: anemoi_generator_inv.val(),
    };
    proof {
        assert(factor >= 1 || m == 0) by (nonlinear_arith)
            requires
                factor == m / n,
                n >= 1,
                m % n == 0,
        ;
        assert(factor <= m) by (nonlinear_arith)
            requires
                factor == m / n,
                n >= 1,
        ;
    }
    let mut evals: Vec<Fr> = Vec::new();
    let mut point: usize = 0;
    while point < m
        invariant
            tables_wf(e, m as nat),
            k@.len() == 5,
            n >= 1,
            factor == m / n,
            m == 0 || factor >= 1,
            factor <= m,
            zh_inv@.len() == factor,
            forall|i: int|
                0 <= i < factor ==> (#[trigger] zh_inv@[i]).val() == finv(
                    zh_coset(k@[1].val(), group_gen_m.val(), n as nat, i as nat),
                ) && fmul(zh_inv@[i].val(), zh_coset(k@[1].val(), group_gen_m.val(), n as nat, i as nat))
                    == 1,
            forall|q: int|
                0 <= q < point ==> fmul(
                    (#[trigger] evals@[q]).val(),
                    zh_coset(k@[1].val(), group_gen_m.val(), n as nat, (q % (factor as int)) as nat),
                ) == t_numerator(e, k@, a, q, (q + factor) % (m as int)),
            a == (QuotientParams {
                alpha: alpha.val(),
                beta: beta.val(),
                gamma: gamma.val(),
                g: anemoi_generator.val(),
                g_inv: anemoi_generator_inv.val(),
            }),
            point <= m,
            evals@.len() == point,
            forall|p: int|
                0 <= p < point ==> (#[trigger] evals@[p]).val() == fmul(
                    t_numerator(e, k@, a, p, (p + factor) % (m as int)),
                    finv(zh_coset(k@[1].val(), group_gen_m.val(), n as nat, (p % (factor as int)) as nat)),
                ),
        decreases m - point,
    {
        let next = if point >= m - factor {
            point - (m - factor)
        } else {
            point + factor
        };
        proof {
            if point >= m - factor {
                vstd::arithmetic::div_mod::lemma_mod_add_multiples_vanish(
                    point + factor - m,
                    m as int,
                );
                vstd::arithmetic::div_mod::lemma_small_mod((point + factor - m) as nat, m as nat);
            } else {
                vstd::arithmetic::div_mod::lemma_small_mod((point + factor) as nat, m as nat);
            }
            assert(next == (point + factor) % (m as int));
        }
        let num = t_numerator_at(
            e,
            k,
            &alpha,
            &beta,
            &gamma,
            anemoi_generator,
            anemoi_generator_inv,
            point,
            next,
            Ghost(m as nat),
        );
        let zi = zh_inv[point % factor];
        proof {
            let z = zh_coset(k@[1].val(), group_gen_m.val(), n as nat, ((point as int) % (factor as int)) as nat);
            lemma_mul_inv_cancel(num.val(), zi.val(), z);
        }
        evals.push(num.mul(&zi));
        point = point + 1;
    }
    Ok(evals)
}

} // verus!
