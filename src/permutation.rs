//! The permutation argument: the running product `Z` over the circuit domain.
use crate::challenges::PlonkChallenges;
use crate::errors::PlonkError;
use crate::field::{batch_inversion, fadd, finv, fmul, group_field, Fr};
use vstd::prelude::*;

verus! {

broadcast use group_field;

/// The coset point of flattened position `p`: `k[p / n] * group[p % n]`.
pub open spec fn perm_point(k: Seq<Fr>, group: Seq<Fr>, n: int, p: int) -> int {
    fmul(k[p / n].val(), group[p % n].val())
}

/// `f_j(w^i) + gamma + beta * k_j * w^i`.
pub open spec fn num_factor(
    w: Seq<Fr>,
    k: Seq<Fr>,
    group: Seq<Fr>,
    beta: int,
    gamma: int,
    n: int,
    i: int,
    j: int,
) -> int {
    fadd(fadd(w[j * n + i].val(), gamma), fmul(beta, fmul(k[j].val(), group[i].val())))
}

/// `f_j(w^i) + gamma + beta * perm_j(w^i)`.
pub open spec fn den_factor(
    w: Seq<Fr>,
    perm: Seq<usize>,
    k: Seq<Fr>,
    group: Seq<Fr>,
    beta: int,
    gamma: int,
    n: int,
    i: int,
    j: int,
) -> int {
    fadd(fadd(w[j * n + i].val(), gamma), fmul(beta, perm_point(k, group, n, perm[j * n + i] as int)))
}

/// The product of the numerator factors of row `i` over wires `0..j`.
pub open spec fn num_prod(
    w: Seq<Fr>,
    k: Seq<Fr>,
    group: Seq<Fr>,
    beta: int,
    gamma: int,
    n: int,
    i: int,
    j: nat,
) -> int
    decreases j,
{
    if j == 0 {
        1
    } else {
        fmul(
            num_prod(w, k, group, beta, gamma, n, i, (j - 1) as nat),
            num_factor(w, k, group, beta, gamma, n, i, j - 1),
        )
    }
}

/// The product of the denominator factors of row `i` over wires `0..j`.
pub open spec fn den_prod(
    w: Seq<Fr>,
    perm: Seq<usize>,
    k: Seq<Fr>,
    group: Seq<Fr>,
    beta: int,
    gamma: int,
    n: int,
    i: int,
    j: nat,
) -> int
    decreases j,
{
    if j == 0 {
        1
    } else {
        fmul(
            den_prod(w, perm, k, group, beta, gamma, n, i, (j - 1) as nat),
            den_factor(w, perm, k, group, beta, gamma, n, i, j - 1),
        )
    }
}

/// `Z(w^i)`: one at `i = 0`, then each step multiplies by the row's
/// numerator over its denominator.
pub open spec fn z_eval(
    w: Seq<Fr>,
    perm: Seq<usize>,
    k: Seq<Fr>,
    group: Seq<Fr>,
    beta: int,
    gamma: int,
    n: int,
    i: nat,
) -> int
    decreases i,
{
    if i == 0 {
        1
    } else {
        let r = i - 1;
        fmul(
            z_eval(w, perm, k, group, beta, gamma, n, (i - 1) as nat),
            fmul(
                num_prod(w, k, group, beta, gamma, n, r, 5),
                finv(den_prod(w, perm, k, group, beta, gamma, n, r, 5)),
            ),
        )
    }
}

/// The evaluations of the permutation accumulator `Z` on the circuit domain
/// `group`, from the extended witness `w` (wire after wire, `n` values each),
/// the permutation `perm` and the coset shifts `k`. Fails when some row's
/// denominator is zero.
pub fn z_poly(
    w: &[Fr],
    perm: &[usize],
    group: &[Fr],
    k: &[Fr],
    challenges: &PlonkChallenges,
) -> (r: Result<Vec<Fr>, PlonkError>)
    requires
        challenges@.len() > 1,
        k@.len() == 5,
        w@.len() >= 5,
        w@.len() % 5 == 0,
        perm@.len() == w@.len(),
        group@.len() >= w@.len() / 5,
        forall|p: int| 0 <= p < perm@.len() ==> #[trigger] perm@[p] < w@.len(),
    ensures
        ({
            let n = w@.len() as int / 5;
            let beta = challenges@[0].val();
            let gamma = challenges@[1].val();
            &&& r is Err <==> exists|i: int|
                0 <= i < n - 1 && #[trigger] den_prod(w@, perm@, k@, group@, beta, gamma, n, i, 5)
                    == 0
            &&& r is Err ==> r == Err::<Vec<Fr>, PlonkError>(PlonkError::DivisionByZero)
            &&& r matches Ok(z) ==> {
                &&& z@.len() == n
                &&& forall|i: int|
                    0 <= i < n ==> (#[trigger] z@[i]).val() == z_eval(
                        w@,
                        perm@,
                        k@,
                        group@,
                        beta,
                        gamma,
                        n,
                        i as nat,
                    )
            }
        }),
{
    let n = w.len() / 5;
    let ghost nn = n as int;
    let (beta, gamma) = match challenges.get_beta_gamma() {
        Ok(bg) => bg,
        Err(e) => {
            return Err(e);
        },
    };
    let ghost b = beta.val();
    let ghost g = gamma.val();
    let mut nums: Vec<Fr> = Vec::new();
    let mut dens: Vec<Fr> = Vec::new();
    let mut i: usize = 0;
    while i < n - 1
        invariant
            n == w@.len() / 5,
            nn == n,
            n >= 1,
            w@.len() == 5 * n,
            w@.len() <= usize::MAX,
            k@.len() == 5,
            perm@.len() == w@.len(),
            group@.len() >= n,
            forall|p: int| 0 <= p < perm@.len() ==> #[trigger] perm@[p] < w@.len(),
            b == beta.val(),
            g == gamma.val(),
            b == challenges@[0].val(),
            g == challenges@[1].val(),
            i <= n - 1,
            nums@.len() == i,
            dens@.len() == i,
            forall|r: int|
                0 <= r < i ==> (#[trigger] nums@[r]).val() == num_prod(
                    w@,
                    k@,
                    group@,
                    b,
                    g,
                    nn,
                    r,
                    5,
                ),
            forall|r: int|
                0 <= r < i ==> (#[trigger] dens@[r]).val() == den_prod(
                    w@,
                    perm@,
                    k@,
                    group@,
                    b,
                    g,
                    nn,
                    r,
                    5,
                ),
        decreases n - 1 - i,
    {
        let mut num = Fr::one();
        let mut den = Fr::one();
        let mut j: usize = 0;
        while j < 5
            invariant
                n == w@.len() / 5,
                nn == n,
                n >= 1,
                w@.len() == 5 * n,
                w@.len() <= usize::MAX,
                k@.len() == 5,
                perm@.len() == w@.len(),
                group@.len() >= n,
                forall|p: int| 0 <= p < perm@.len() ==> #[trigger] perm@[p] < w@.len(),
                b == beta.val(),
                g == gamma.val(),
                i < n - 1,
                j <= 5,
                num.val() == num_prod(w@, k@, group@, b, g, nn, i as int, j as nat),
                den.val() == den_prod(w@, perm@, k@, group@, b, g, nn, i as int, j as nat),
            decreases 5 - j,
        {
            assert(j * n + i < 5 * n) by (nonlinear_arith)
                requires
                    j < 5,
                    i < n,
            ;
            let idx = j * n + i;
            let k_x = k[j].mul(&group[i]);
            let f_x = w[idx];
            let num_f = f_x.add(&gamma).add(&beta.mul(&k_x));
            num = num.mul(&num_f);
            let pv = perm[idx];
            proof {
                vstd::arithmetic::div_mod::lemma_multiply_divide_lt(pv as int, n as int, 5);
                vstd::arithmetic::div_mod::lemma_mod_bound(pv as int, n as int);
            }
            let p_x = k[pv / n].mul(&group[pv % n]);
            let den_f = f_x.add(&gamma).add(&beta.mul(&p_x));
            den = den.mul(&den_f);
            j = j + 1;
        }
        nums.push(num);
        dens.push(den);
        i = i + 1;
    }
    let mut t: usize = 0;
    while t < dens.len()
        invariant
            n >= 1,
            nn == n,
            nn == w@.len() as int / 5,
            b == challenges@[0].val(),
            g == challenges@[1].val(),
            dens@.len() == n - 1,
            t <= dens@.len(),
            forall|r: int| 0 <= r < t ==> (#[trigger] dens@[r]).val() != 0,
            forall|r: int|
                0 <= r < n - 1 ==> (#[trigger] dens@[r]).val() == den_prod(
                    w@,
                    perm@,
                    k@,
                    group@,
                    b,
                    g,
                    nn,
                    r,
                    5,
                ),
        decreases dens@.len() - t,
    {
        if dens[t].is_zero() {
            assert(den_prod(w@, perm@, k@, group@, b, g, nn, t as int, 5) == 0);
            return Err(PlonkError::DivisionByZero);
        }
        t = t + 1;
    }
    let ghost dens0 = dens@;
    batch_inversion(&mut dens);
    let mut prev = Fr::one();
    let mut z: Vec<Fr> = Vec::new();
    z.push(prev);
    i = 0;
    while i < n - 1
        invariant
            n >= 1,
            nn == n,
            nn == w@.len() as int / 5,
            b == challenges@[0].val(),
            g == challenges@[1].val(),
            i <= n - 1,
            nums@.len() == n - 1,
            dens@.len() == n - 1,
            dens0.len() == n - 1,
            forall|r: int|
                0 <= r < n - 1 ==> (#[trigger] nums@[r]).val() == num_prod(
                    w@,
                    k@,
                    group@,
                    b,
                    g,
                    nn,
                    r,
                    5,
                ),
            forall|r: int|
                0 <= r < n - 1 ==> (#[trigger] dens0[r]).val() == den_prod(
                    w@,
                    perm@,
                    k@,
                    group@,
                    b,
                    g,
                    nn,
                    r,
                    5,
                ),
            forall|r: int| 0 <= r < n - 1 ==> (#[trigger] dens@[r]).val() == finv(dens0[r].val()),
            z@.len() == i + 1,
            prev == z@[i as int],
            forall|r: int|
                0 <= r <= i ==> (#[trigger] z@[r]).val() == z_eval(
                    w@,
                    perm@,
                    k@,
                    group@,
                    b,
                    g,
                    nn,
                    r as nat,
                ),
        decreases n - 1 - i,
    {
        prev = prev.mul(&nums[i].mul(&dens[i]));
        z.push(prev);
        i = i + 1;
    }
    proof {
        assert forall|i: int|
            0 <= i < nn - 1 implies #[trigger] den_prod(w@, perm@, k@, group@, b, g, nn, i, 5)
            != 0 by {
            assert(dens0[i].val() != 0);
        }
    }
    Ok(z)
}

} // verus!
