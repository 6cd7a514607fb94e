//! The cycles that the copy-constraint permutation forms: every position of
//! a variable reaches every other one, in fewer steps than the variable has
//! occurrences.
use crate::cs::{is_next_occurrence, TurboCS};
use vstd::prelude::*;

verus! {

/// The number of positions in `lo..hi` of `v` that hold `x`.
pub open spec fn count_occ(v: Seq<usize>, x: usize, lo: int, hi: int) -> nat
    decreases hi - lo,
{
    if hi <= lo {
        0
    } else {
        count_occ(v, x, lo, hi - 1) + if v[hi - 1] == x {
            1nat
        } else {
            0nat
        }
    }
}

/// Where `t` steps of `perm` lead from `p`.
pub open spec fn iterate(perm: Seq<usize>, p: int, t: nat) -> int
    decreases t,
{
    if t == 0 {
        p
    } else {
        iterate(perm, perm[p] as int, (t - 1) as nat)
    }
}

/// `perm` sends every position of `v` to the next one holding the same
/// variable, and the last one back to the first.
pub open spec fn is_copy_permutation(v: Seq<usize>, perm: Seq<usize>) -> bool {
    &&& perm.len() == v.len()
    &&& forall|p: int| 0 <= p < v.len() ==> is_next_occurrence(v, p, #[trigger] perm[p] as int)
}

/// The last position below `hi` that holds `x`, or `-1`.
pub open spec fn last_occ(v: Seq<usize>, x: usize, hi: int) -> int
    decreases hi,
{
    if hi <= 0 {
        -1
    } else if v[hi - 1] == x {
        hi - 1
    } else {
        last_occ(v, x, hi - 1)
    }
}

/// The first position from `lo` on that holds `x`, or `v.len()`.
pub open spec fn first_occ(v: Seq<usize>, x: usize, lo: int) -> int
    decreases v.len() - lo,
{
    if lo >= v.len() {
        v.len() as int
    } else if v[lo] == x {
        lo
    } else {
        first_occ(v, x, lo + 1)
    }
}

proof fn lemma_count_split(v: Seq<usize>, x: usize, lo: int, mid: int, hi: int)
    requires
        lo <= mid <= hi,
    ensures
        count_occ(v, x, lo, hi) == count_occ(v, x, lo, mid) + count_occ(v, x, mid, hi),
    decreases hi - mid,
{
    if hi > mid {
        lemma_count_split(v, x, lo, mid, hi - 1);
    }
}

proof fn lemma_count_none(v: Seq<usize>, x: usize, lo: int, hi: int)
    requires
        forall|k: int| lo <= k < hi ==> v[k] != x,
    ensures
        count_occ(v, x, lo, hi) == 0,
    decreases hi - lo,
{
    if hi > lo {
        lemma_count_none(v, x, lo, hi - 1);
    }
}

proof fn lemma_last_occ(v: Seq<usize>, x: usize, hi: int, k: int)
    requires
        0 <= k < hi <= v.len(),
        v[k] == x,
    ensures
        k <= last_occ(v, x, hi) < hi,
        v[last_occ(v, x, hi)] == x,
        forall|j: int| last_occ(v, x, hi) < j < hi ==> v[j] != x,
    decreases hi,
{
    if v[hi - 1] != x {
        lemma_last_occ(v, x, hi - 1, k);
    }
}

proof fn lemma_first_occ(v: Seq<usize>, x: usize, lo: int, k: int)
    requires
        0 <= lo <= k < v.len(),
        v[k] == x,
    ensures
        lo <= first_occ(v, x, lo) <= k,
        v[first_occ(v, x, lo)] == x,
        forall|j: int| lo <= j < first_occ(v, x, lo) ==> v[j] != x,
    decreases v.len() - lo,
{
    if v[lo] != x {
        lemma_first_occ(v, x, lo + 1, k);
    }
}

proof fn lemma_iterate_add(v: Seq<usize>, perm: Seq<usize>, p: int, a: nat, b: nat)
    requires
        is_copy_permutation(v, perm),
        0 <= p < v.len(),
    ensures
        iterate(perm, p, a + b) == iterate(perm, iterate(perm, p, a), b),
    decreases a,
{
    if a > 0 {
        assert(is_next_occurrence(v, p, perm[p] as int));
        lemma_iterate_add(v, perm, perm[p] as int, (a - 1) as nat, b);
        assert((a + b - 1) as nat == (a - 1) as nat + b);
    }
}

/// From `p`, the permutation reaches a later position `q` of the same
/// variable in as many steps as there are occurrences in `(p, q]`.
proof fn lemma_forward(v: Seq<usize>, perm: Seq<usize>, p: int, q: int)
    requires
        is_copy_permutation(v, perm),
        0 <= p <= q < v.len(),
        v[p] == v[q],
    ensures
        iterate(perm, p, count_occ(v, v[p], p + 1, q + 1)) == q,
    decreases q - p,
{
    let x = v[p];
    if p == q {
        assert(count_occ(v, x, p + 1, q + 1) == 0);
    } else {
        let n = perm[p] as int;
        assert(is_next_occurrence(v, p, n));
        assert(n > p);
        assert(n <= q);
        lemma_count_split(v, x, p + 1, n + 1, q + 1);
        lemma_count_split(v, x, p + 1, n, n + 1);
        lemma_count_none(v, x, p + 1, n);
        lemma_forward(v, perm, n, q);
        let c = count_occ(v, x, n + 1, q + 1);
        assert(count_occ(v, x, p + 1, q + 1) == c + 1);
        assert(iterate(perm, p, c + 1) == iterate(perm, n, c));
    }
}

/// Every two positions of one variable lie on one cycle of the permutation:
/// from `p`, fewer steps than the variable has occurrences lead to `q`.
pub proof fn lemma_permutation_cycles(v: Seq<usize>, perm: Seq<usize>, p: int, q: int)
    requires
        is_copy_permutation(v, perm),
        0 <= p < v.len(),
        0 <= q < v.len(),
        v[p] == v[q],
    ensures
        exists|t: nat|
            t < count_occ(v, v[p], 0, v.len() as int) && #[trigger] iterate(perm, p, t) == q,
{
    let x = v[p];
    let len = v.len() as int;
    if p <= q {
        let t = count_occ(v, x, p + 1, q + 1);
        lemma_forward(v, perm, p, q);
        lemma_count_split(v, x, 0, p, len);
        lemma_count_split(v, x, p, p + 1, len);
        lemma_count_split(v, x, p + 1, q + 1, len);
        assert(iterate(perm, p, t) == q);
    } else {
        let l = last_occ(v, x, len);
        let f = first_occ(v, x, 0);
        lemma_last_occ(v, x, len, p);
        lemma_first_occ(v, x, 0, q);
        lemma_forward(v, perm, p, l);
        lemma_forward(v, perm, f, q);
        let c1 = count_occ(v, x, p + 1, l + 1);
        let c2 = count_occ(v, x, f + 1, q + 1);
        assert(is_next_occurrence(v, l, perm[l] as int));
        assert(perm[l] as int == f) by {
            if (perm[l] as int) > l {
                assert(v[perm[l] as int] == x);
            }
            if (perm[l] as int) < f {
                assert(v[perm[l] as int] == x);
            }
            if (perm[l] as int) > f {
                assert(v[f] == x);
            }
        }
        lemma_iterate_add(v, perm, p, c1, 1 + c2);
        assert(iterate(perm, l, 1 + c2) == iterate(perm, f, c2));
        let t = c1 + 1 + c2;
        assert(iterate(perm, p, t) == q);
        lemma_count_split(v, x, 0, f, len);
        lemma_count_none(v, x, 0, f);
        lemma_count_split(v, x, f, f + 1, len);
        lemma_count_split(v, x, f + 1, q + 1, len);
        lemma_count_split(v, x, q + 1, p, len);
        lemma_count_split(v, x, p, p + 1, len);
        lemma_count_split(v, x, p + 1, l + 1, len);
        assert(t < count_occ(v, x, 0, len));
    }
}

/// On the permutation of a circuit's wiring, as `compute_permutation`
/// returns it, every two wire positions that hold the same variable lie on
/// one cycle, fewer steps apart than the variable's number of occurrences.
pub proof fn lemma_wiring_cycles(cs: &TurboCS, perm: Seq<usize>, p: int, q: int)
    requires
        perm.len() == cs.flat_wiring().len(),
        forall|r: int|
            0 <= r < perm.len() ==> is_next_occurrence(cs.flat_wiring(), r, #[trigger] perm[r] as int),
        0 <= p < perm.len(),
        0 <= q < perm.len(),
        cs.flat_wiring()[p] == cs.flat_wiring()[q],
    ensures
        exists|t: nat|
            t < count_occ(cs.flat_wiring(), cs.flat_wiring()[p], 0, perm.len() as int)
                && #[trigger] iterate(perm, p, t) == q,
{
    lemma_permutation_cycles(cs.flat_wiring(), perm, p, q);
}

} // verus!
