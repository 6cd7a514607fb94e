//! Polynomials as coefficient vectors, lowest degree first: linear
//! combinations and the blinded split of the quotient into chunks.
use crate::field::{fadd, fmul, fneg, fsub, group_field, lemma_fadd_fneg, lemma_fadd_fsub_cancel, Fr};
use vstd::prelude::*;

verus! {

broadcast use group_field;

/// Coefficient `c` of `p`, zero past its end.
pub open spec fn coef(p: Seq<Fr>, c: int) -> int {
    if 0 <= c < p.len() {
        p[c].val()
    } else {
        0
    }
}

/// Coefficient `c` of `sum_{i < t} polys[i] * scalars[i]`.
pub open spec fn lc_coef(polys: Seq<Vec<Fr>>, scalars: Seq<Fr>, c: int, t: nat) -> int
    decreases t,
{
    if t == 0 {
        0
    } else {
        fadd(
            lc_coef(polys, scalars, c, (t - 1) as nat),
            fmul(coef(polys[t - 1]@, c), scalars[t - 1].val()),
        )
    }
}

/// The largest length among `polys[0..t]`.
pub open spec fn max_len(polys: Seq<Vec<Fr>>, t: nat) -> nat
    decreases t,
{
    if t == 0 {
        0
    } else if polys[t - 1]@.len() > max_len(polys, (t - 1) as nat) {
        polys[t - 1]@.len()
    } else {
        max_len(polys, (t - 1) as nat)
    }
}

/// `sum_i polys[i] * scalars[i]`, as long as the longest of `polys`.
pub fn linear_combination(polys: &[Vec<Fr>], scalars: &[Fr]) -> (r: Vec<Fr>)
    requires
        polys@.len() == scalars@.len(),
    ensures
        r@.len() == max_len(polys@, polys@.len()),
        forall|c: int|
            0 <= c < r@.len() ==> (#[trigger] r@[c]).val() == lc_coef(
                polys@,
                scalars@,
                c,
                polys@.len(),
            ),
{
    let mut len: usize = 0;
    let mut i: usize = 0;
    while i < polys.len()
        invariant
            i <= polys@.len(),
            len == max_len(polys@, i as nat),
        decreases polys@.len() - i,
    {
        if polys[i].len() > len {
            len = polys[i].len();
        }
        i = i + 1;
    }
    let mut r: Vec<Fr> = Vec::new();
    let mut c: usize = 0;
    while c < len
        invariant
            c <= len,
            r@.len() == c,
            forall|d: int| 0 <= d < c ==> (#[trigger] r@[d]).val() == 0,
        decreases len - c,
    {
        r.push(Fr::zero());
        c = c + 1;
    }
    i = 0;
    while i < polys.len()
        invariant
            polys@.len() == scalars@.len(),
            i <= polys@.len(),
            len == max_len(polys@, polys@.len()),
            r@.len() == len,
            forall|d: int|
                0 <= d < len ==> (#[trigger] r@[d]).val() == lc_coef(
                    polys@,
                    scalars@,
                    d,
                    i as nat,
                ),
        decreases polys@.len() - i,
    {
        let p = &polys[i];
        proof {
            lemma_max_len_bound(polys@, polys@.len(), i as int);
        }
        let mut c: usize = 0;
        while c < p.len()
            invariant
                polys@.len() == scalars@.len(),
                i < polys@.len(),
                p@ == polys@[i as int]@,
                p@.len() <= len,
                c <= p@.len(),
                r@.len() == len,
                forall|d: int|
                    0 <= d < c ==> (#[trigger] r@[d]).val() == lc_coef(
                        polys@,
                        scalars@,
                        d,
                        (i + 1) as nat,
                    ),
                forall|d: int|
                    c <= d < len ==> (#[trigger] r@[d]).val() == lc_coef(
                        polys@,
                        scalars@,
                        d,
                        i as nat,
                    ),
            decreases p@.len() - c,
        {
            let v = r[c].add(&p[c].mul(&scalars[i]));
            r.set(c, v);
            c = c + 1;
        }
        assert forall|d: int| 0 <= d < len implies (#[trigger] r@[d]).val() == lc_coef(
            polys@,
            scalars@,
            d,
            (i + 1) as nat,
        ) by {
            if d >= p@.len() {
                assert(coef(polys@[i as int]@, d) == 0);
            }
        }
        i = i + 1;
    }
    r
}

/// Each of `polys[0..t]` is at most `max_len(polys, t)` long.
pub proof fn lemma_max_len_bound(polys: Seq<Vec<Fr>>, t: nat, i: int)
    requires
        0 <= i < t,
        t <= polys.len(),
    ensures
        polys[i]@.len() <= max_len(polys, t),
    decreases t,
{
    if i < t - 1 {
        lemma_max_len_bound(polys, (t - 1) as nat, i);
    }
}

/// The blind that the previous chunk added at its top, subtracted again here.
pub open spec fn prev_blind(blinds: Seq<Fr>, i: int) -> int {
    if i == 0 {
        0
    } else {
        blinds[i - 1].val()
    }
}

/// Chunk `i` of the split, for `i` below the last: `n + 1` coefficients,
/// `t[i n .. i n + n]` padded with zeros, minus the previous blind at the
/// bottom and plus this chunk's blind at the top.
pub open spec fn is_inner_chunk(chunk: Seq<Fr>, t: Seq<Fr>, blinds: Seq<Fr>, n: int, i: int) -> bool {
    &&& chunk.len() == n + 1
    &&& chunk[0].val() == fsub(coef(t, i * n), prev_blind(blinds, i))
    &&& chunk[n].val() == blinds[i].val()
    &&& forall|c: int| 1 <= c < n ==> (#[trigger] chunk[c]).val() == coef(t, i * n + c)
}

/// The last chunk, `i`: what is left of `t` from `i n` on, minus the previous
/// blind at the bottom; just that negated blind if nothing is left.
pub open spec fn is_last_chunk(chunk: Seq<Fr>, t: Seq<Fr>, blinds: Seq<Fr>, n: int, i: int) -> bool {
    if i * n < t.len() {
        &&& chunk.len() == t.len() - i * n
        &&& chunk[0].val() == fsub(t[i * n].val(), prev_blind(blinds, i))
        &&& forall|c: int| 1 <= c < chunk.len() ==> (#[trigger] chunk[c]).val() == t[i * n + c].val()
    } else {
        &&& chunk.len() == 1
        &&& chunk[0].val() == fneg(prev_blind(blinds, i))
    }
}

/// Splits the quotient `t` into `n_wires_per_gate` chunks of degree at most
/// `n` (the last takes the rest), blinding chunk `i` with `blinds[i] X^n`
/// and taking the same value off the bottom of chunk `i + 1`, so that
/// `sum_i chunk_i X^{i n}` is still `t`.
pub fn split_t(t: &[Fr], n_wires_per_gate: usize, n: usize, blinds: &[Fr]) -> (r: Vec<Vec<Fr>>)
    requires
        n_wires_per_gate >= 1,
        n >= 1,
        blinds@.len() >= n_wires_per_gate - 1,
        n_wires_per_gate * n <= usize::MAX,
    ensures
        r@.len() == n_wires_per_gate,
        forall|i: int|
            0 <= i < n_wires_per_gate - 1 ==> is_inner_chunk(
                #[trigger] r@[i]@,
                t@,
                blinds@,
                n as int,
                i,
            ),
        is_last_chunk(r@[n_wires_per_gate - 1]@, t@, blinds@, n as int, n_wires_per_gate - 1),
{
    let nw = n_wires_per_gate;
    let zero = Fr::zero();
    let mut prev = zero;
    let mut r: Vec<Vec<Fr>> = Vec::new();
    let mut i: usize = 0;
    while i < nw - 1
        invariant
            nw == n_wires_per_gate,
            nw >= 1,
            n >= 1,
            nw * n <= usize::MAX,
            blinds@.len() >= nw - 1,
            zero.val() == 0,
            i <= nw - 1,
            r@.len() == i,
            prev.val() == prev_blind(blinds@, i as int),
            forall|j: int|
                0 <= j < i ==> is_inner_chunk(#[trigger] r@[j]@, t@, blinds@, n as int, j),
        decreases nw - 1 - i,
    {
        assert(i * n + n <= nw * n) by (nonlinear_arith)
            requires
                i < nw,
        ;
        assert(n < usize::MAX) by (nonlinear_arith)
            requires
                nw >= 2,
                nw * n <= usize::MAX,
                n >= 1,
        ;
        let start = i * n;
        let mut chunk: Vec<Fr> = Vec::new();
        let mut c: usize = 0;
        while c <= n
            invariant
                start == i * n,
                start + n <= usize::MAX,
                n < usize::MAX,
                zero.val() == 0,
                c <= n + 1,
                chunk@.len() == c,
                forall|d: int|
                    0 <= d < c ==> (#[trigger] chunk@[d]).val() == if d < n {
                        coef(t@, start + d)
                    } else {
                        0
                    },
            decreases n + 1 - c,
        {
            if c < n && start + c < t.len() {
                chunk.push(t[start + c]);
            } else {
                chunk.push(zero);
            }
            c = c + 1;
        }
        let top = chunk[n].add(&blinds[i]);
        chunk.set(n, top);
        let bottom = chunk[0].sub(&prev);
        chunk.set(0, bottom);
        prev = blinds[i];
        r.push(chunk);
        i = i + 1;
    }
    assert((nw - 1) * n <= nw * n) by (nonlinear_arith);
    let start = (nw - 1) * n;
    let mut chunk: Vec<Fr> = Vec::new();
    if start < t.len() {
        let mut c: usize = start;
        while c < t.len()
            invariant
                start < t@.len(),
                start <= c <= t@.len(),
                chunk@.len() == c - start,
                forall|d: int| 0 <= d < c - start ==> #[trigger] chunk@[d] == t@[start + d],
            decreases t@.len() - c,
        {
            chunk.push(t[c]);
            c = c + 1;
        }
        let bottom = chunk[0].sub(&prev);
        chunk.set(0, bottom);
    } else {
        chunk.push(prev.neg());
    }
    r.push(chunk);
    r
}

/// `p` with `v` added to coefficient `idx`, extended with zeros first if it
/// is too short.
pub open spec fn add_at(p: Seq<int>, idx: int, v: int) -> Seq<int> {
    let q = if idx < p.len() {
        p
    } else {
        p + Seq::new((idx + 1 - p.len()) as nat, |j: int| 0int)
    };
    q.update(idx, fadd(q[idx], v))
}

/// `p` after the first `k` blinds: blind `i` added at `X^i` and taken off at
/// `X^{z + i}`, which leaves `p` unchanged wherever `X^z = 1`.
pub open spec fn hidden(p: Seq<int>, blinds: Seq<int>, z: int, k: nat) -> Seq<int>
    decreases k,
{
    if k == 0 {
        p
    } else {
        let i = k - 1;
        add_at(add_at(hidden(p, blinds, z, (k - 1) as nat), i, blinds[i]), z + i, fneg(blinds[i]))
    }
}

/// Adds `v` to coefficient `idx` of `p`, growing `p` with zeros if needed.
fn add_coef_assign(p: &mut Vec<Fr>, v: &Fr, idx: usize)
    requires
        idx < usize::MAX,
    ensures
        crate::cs::vals(final(p)@) == add_at(crate::cs::vals(old(p)@), idx as int, v.val()),
{
    let ghost p0 = crate::cs::vals(p@);
    let ghost q = if (idx as int) < p0.len() {
        p0
    } else {
        p0 + Seq::new((idx + 1 - p0.len()) as nat, |j: int| 0int)
    };
    let ghost old_len = p@.len();
    while p.len() <= idx
        invariant
            idx < usize::MAX,
            old_len == p0.len(),
            p@.len() >= old_len,
            p@.len() <= idx + 1 || p@.len() == old_len,
            forall|j: int| 0 <= j < old_len ==> (#[trigger] p@[j]).val() == p0[j],
            forall|j: int| old_len <= j < p@.len() ==> (#[trigger] p@[j]).val() == 0,
        decreases idx + 1 - p@.len(),
    {
        p.push(Fr::zero());
    }
    let x = p[idx].add(v);
    p.set(idx, x);
    proof {
        assert(crate::cs::vals(p@) =~= q.update(idx as int, fadd(q[idx as int], v.val())));
    }
}

/// Blinds `poly` with `(b_0 + b_1 X + ...) (X^z - 1)` for the given blinds,
/// `z` being the zeroing degree: its values on the subgroup of order `z`
/// stay as they were.
pub fn hide_polynomial(poly: &mut Vec<Fr>, blinds: &[Fr], zeroing_degree: usize)
    requires
        zeroing_degree + blinds@.len() < usize::MAX,
    ensures
        crate::cs::vals(final(poly)@) == hidden(
            crate::cs::vals(old(poly)@),
            crate::cs::vals(blinds@),
            zeroing_degree as int,
            blinds@.len(),
        ),
{
    let ghost p0 = crate::cs::vals(poly@);
    let mut i: usize = 0;
    while i < blinds.len()
        invariant
            zeroing_degree + blinds@.len() < usize::MAX,
            p0 == crate::cs::vals(old(poly)@),
            i <= blinds@.len(),
            crate::cs::vals(poly@) == hidden(
                p0,
                crate::cs::vals(blinds@),
                zeroing_degree as int,
                i as nat,
            ),
        decreases blinds@.len() - i,
    {
        let blind = blinds[i];
        add_coef_assign(poly, &blind, i);
        let neg = blind.neg();
        add_coef_assign(poly, &neg, zeroing_degree + i);
        i = i + 1;
    }
}

/// Coefficient `c` of `sum_{i < k} chunks[i] X^{i n}`.
pub open spec fn recombined(chunks: Seq<Vec<Fr>>, n: int, c: int, k: nat) -> int
    decreases k,
{
    if k == 0 {
        0
    } else {
        fadd(recombined(chunks, n, c, (k - 1) as nat), coef(chunks[k - 1]@, c - (k - 1) * n))
    }
}

/// After the first `k` inner chunks: the coefficients of `t` below `k n`,
/// the open blind at `k n`, and nothing above.
proof fn lemma_inner_prefix(
    t: Seq<Fr>,
    n: int,
    blinds: Seq<Fr>,
    chunks: Seq<Vec<Fr>>,
    c: int,
    k: nat,
)
    requires
        n >= 1,
        c >= 0,
        k <= chunks.len(),
        k <= blinds.len(),
        forall|i: int| 0 <= i < k ==> is_inner_chunk(#[trigger] chunks[i]@, t, blinds, n, i),
    ensures
        recombined(chunks, n, c, k) == if c < k * n {
            coef(t, c)
        } else if c == k * n {
            prev_blind(blinds, k as int)
        } else {
            0
        },
    decreases k,
{
    if k == 0 {
        assert(k * n == 0);
    } else {
        let i = k - 1;
        lemma_inner_prefix(t, n, blinds, chunks, c, (k - 1) as nat);
        assert(is_inner_chunk(chunks[i]@, t, blinds, n, i));
        assert(k * n == i * n + n) by (nonlinear_arith)
            requires
                i == k - 1,
        ;
        let d = c - i * n;
        let ch = chunks[i]@;
        let prev = recombined(chunks, n, c, (k - 1) as nat);
        assert(recombined(chunks, n, c, k) == fadd(prev, coef(ch, d)));
        assert(((k - 1) as nat) * n == i * n);
        if c < i * n {
            assert(coef(ch, d) == 0);
            assert(fadd(prev, 0) == prev);
        } else if c == i * n {
            assert(coef(t, i * n) == coef(t, c));
            lemma_fadd_fsub_cancel(prev_blind(blinds, i), coef(t, c));
        } else if c < k * n {
            assert(1 <= d < n);
            assert(ch[d].val() == coef(t, i * n + d));
            assert(fadd(0, coef(t, c)) == coef(t, c));
        } else if c == k * n {
            assert(d == n);
            assert(fadd(0, blinds[i].val()) == blinds[i].val());
        } else {
            assert(coef(ch, d) == 0);
            assert(fadd(0, 0) == 0);
        }
    }
}

/// The chunks that `split_t` returns add back up to `t`:
/// `sum_i chunk_i X^{i n} = t`, coefficient by coefficient. Every blind added
/// at the top of one chunk is taken off the bottom of the next.
pub proof fn lemma_split_recombines(
    t: Seq<Fr>,
    nw: int,
    n: int,
    blinds: Seq<Fr>,
    chunks: Seq<Vec<Fr>>,
    c: int,
)
    requires
        nw >= 1,
        n >= 1,
        blinds.len() >= nw - 1,
        chunks.len() == nw,
        forall|i: int| 0 <= i < nw - 1 ==> is_inner_chunk(#[trigger] chunks[i]@, t, blinds, n, i),
        is_last_chunk(chunks[nw - 1]@, t, blinds, n, nw - 1),
        c >= 0,
    ensures
        recombined(chunks, n, c, nw as nat) == coef(t, c),
{
    let k = (nw - 1) as nat;
    lemma_inner_prefix(t, n, blinds, chunks, c, k);
    let start = k * n;
    let last = chunks[nw - 1]@;
    let d = c - start;
    let prev = prev_blind(blinds, k as int);
    if c < start {
    } else if c == start {
        if start < t.len() {
            lemma_fadd_fsub_cancel(prev, t[start].val());
        } else {
            lemma_fadd_fneg(prev);
        }
    } else {
        if start < t.len() && d < last.len() {
            assert(last[d].val() == t[start + d].val());
        }
    }
}

} // verus!
