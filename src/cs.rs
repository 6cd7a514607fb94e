//! The turbo constraint system: gates of five wires and thirteen selectors,
//! the witness table, and the copy constraints that repeated variables induce.
use crate::errors::PlonkError;
use crate::field::{fadd, fmul, fneg, fpow, fsub, group_field, modulus, Fr};
use vstd::arithmetic::div_mod::{
    lemma_add_mod_noop, lemma_mod_twice, lemma_mul_mod_noop, lemma_small_mod, lemma_sub_mod_noop,
};
use vstd::prelude::*;

verus! {

broadcast use group_field;

/// Index of a variable in the witness table.
pub type VarIndex = usize;

/// Index of a gate (a row of the trace).
pub type CsIndex = usize;

/// Wires of one gate.
pub const N_WIRES_PER_GATE: usize = 5;

/// Selectors of one gate.
pub const N_SELECTORS: usize = 13;

/// One row of the circuit: the variable on each wire, and the selectors
/// `q1, q2, q3, q4, qm1, qm2, qc, qecc, qh1, qh2, qh3, qh4, qo`.
#[derive(Clone, Copy, Debug)]
pub struct Gate {
    pub wires: [VarIndex; 5],
    pub selectors: [Fr; 13],
}

/// The canonical representatives of a sequence of field elements.
pub open spec fn vals(s: Seq<Fr>) -> Seq<int> {
    s.map_values(|x: Fr| x.val())
}

/// The residual of one gate: `q1 w0 + q2 w1 + q3 w2 + q4 w3 + qm1 w0 w1 +
/// qm2 w2 w3 + qc + pi + qecc w0 w1 w2 w3 w4 + qh1 w0^5 + qh2 w1^5 + qh3 w2^5 +
/// qh4 w3^5 - qo w4`.
pub open spec fn gate_residual(w: Seq<int>, q: Seq<int>, pi: int) -> int {
    let add1 = fmul(q[0], w[0]);
    let add2 = fmul(q[1], w[1]);
    let add3 = fmul(q[2], w[2]);
    let add4 = fmul(q[3], w[3]);
    let mul1 = fmul(q[4], fmul(w[0], w[1]));
    let mul2 = fmul(q[5], fmul(w[2], w[3]));
    let constant = fadd(q[6], pi);
    let ecc = fmul(fmul(fmul(fmul(fmul(q[7], w[0]), w[1]), w[2]), w[3]), w[4]);
    let hash1 = fmul(q[8], fpow(w[0], 5));
    let hash2 = fmul(q[9], fpow(w[1], 5));
    let hash3 = fmul(q[10], fpow(w[2], 5));
    let hash4 = fmul(q[11], fpow(w[3], 5));
    let out = fmul(q[12], w[4]);
    let s1 = fadd(fadd(fadd(add1, add2), add3), add4);
    let s2 = fadd(fadd(fadd(s1, mul1), mul2), constant);
    let s3 = fadd(fadd(fadd(fadd(fadd(s2, ecc), hash1), hash2), hash3), hash4);
    fsub(s3, out)
}

/// The coefficient with which each selector enters a gate's residual.
pub open spec fn selector_multipliers(w: Seq<int>) -> Seq<int> {
    seq![
        w[0],
        w[1],
        w[2],
        w[3],
        fmul(w[0], w[1]),
        fmul(w[2], w[3]),
        1,
        fmul(fmul(fmul(fmul(w[0], w[1]), w[2]), w[3]), w[4]),
        fpow(w[0], 5),
        fpow(w[1], 5),
        fpow(w[2], 5),
        fpow(w[3], 5),
        fneg(w[4]),
    ]
}

/// Whether `n` is a power of two.
pub open spec fn is_power_of_two(n: nat) -> bool
    decreases n,
{
    if n == 1 {
        true
    } else if n == 0 || n % 2 == 1 {
        false
    } else {
        is_power_of_two(n / 2)
    }
}

/// The public input that enters row `g`: the value paired with the first
/// occurrence of `g` among the public constraint indices, else zero.
pub open spec fn public_input_at(c: Seq<usize>, online: Seq<Fr>, g: int) -> int
    decreases c.len(),
{
    if c.len() == 0 || online.len() == 0 {
        0
    } else if c[0] == g {
        online[0].val()
    } else {
        public_input_at(c.drop_first(), online.drop_first(), g)
    }
}

/// `q` is where the copy-constraint cycle goes from position `p` of `v`:
/// the next position that holds the same variable, or, from the last one,
/// back to the first.
pub open spec fn is_next_occurrence(v: Seq<usize>, p: int, q: int) -> bool {
    &&& 0 <= q < v.len()
    &&& v[q] == v[p]
    &&& if q > p {
        forall|k: int| p < k < q ==> v[k] != v[p]
    } else {
        &&& forall|k: int| p < k < v.len() ==> v[k] != v[p]
        &&& forall|k: int| 0 <= k < q ==> v[k] != v[p]
    }
}

/// A gate that constrains nothing: every wire on the zero variable and every
/// selector zero.
pub open spec fn is_dummy_gate(g: Gate) -> bool {
    &&& forall|w: int| 0 <= w < 5 ==> #[trigger] g.wires[w] == 0
    &&& forall|s: int| 0 <= s < 13 ==> (#[trigger] g.selectors[s]).val() == 0
}

/// A turbo constraint system together with its witness table.
pub struct TurboCS {
    /// The gates, in row order.
    pub gates: Vec<Gate>,
    /// The value of each variable; variable 0 is zero and variable 1 is one.
    pub witness: Vec<Fr>,
    /// Rows whose wires 1, 2 and 3 must hold a bit.
    pub boolean_constraint_indices: Vec<CsIndex>,
    /// Rows that read a public input.
    pub public_vars_constraint_indices: Vec<CsIndex>,
    /// Variables that hold a public input, in the same order.
    pub public_vars_witness_indices: Vec<VarIndex>,
}

impl TurboCS {
    /// Every gate reads defined variables, the fixed variables hold zero and
    /// one, and every recorded row and variable exists.
    pub open spec fn wf(&self) -> bool {
        &&& self.witness@.len() >= 2
        &&& self.witness@[0].val() == 0
        &&& self.witness@[1].val() == 1
        &&& forall|g: int, w: int|
            0 <= g < self.gates@.len() && 0 <= w < 5 ==> (#[trigger] self.gates@[g].wires[w])
                < self.witness@.len()
        &&& forall|k: int|
            0 <= k < self.boolean_constraint_indices@.len() ==> (
            #[trigger] self.boolean_constraint_indices@[k]) < self.gates@.len()
        &&& self.public_vars_constraint_indices@.len() == self.public_vars_witness_indices@.len()
        &&& forall|k: int|
            0 <= k < self.public_vars_constraint_indices@.len() ==> (
            #[trigger] self.public_vars_constraint_indices@[k]) < self.gates@.len()
        &&& forall|k: int|
            0 <= k < self.public_vars_witness_indices@.len() ==> (
            #[trigger] self.public_vars_witness_indices@[k]) < self.witness@.len()
    }

    /// Wire `w` of every gate, in row order.
    pub open spec fn wiring_col(&self, w: int) -> Seq<usize> {
        self.gates@.map_values(|g: Gate| g.wires[w])
    }

    /// Wires `0..w`, one after the other.
    pub open spec fn wiring_prefix(&self, w: nat) -> Seq<usize>
        decreases w,
    {
        if w == 0 {
            Seq::empty()
        } else {
            self.wiring_prefix((w - 1) as nat) + self.wiring_col(w - 1)
        }
    }

    /// The wiring flattened: position `w * size + g` holds the variable on
    /// wire `w` of gate `g`.
    pub open spec fn flat_wiring(&self) -> Seq<usize> {
        self.wiring_prefix(5)
    }

    /// The values of the wires of row `g` under `wit`.
    pub open spec fn row_wire_vals(&self, wit: Seq<Fr>, g: int) -> Seq<int> {
        Seq::new(5, |w: int| wit[self.gates@[g].wires[w] as int].val())
    }

    /// The selector values of row `g`.
    pub open spec fn row_selector_vals(&self, g: int) -> Seq<int> {
        Seq::new(13, |s: int| self.gates@[g].selectors[s].val())
    }

    /// The residual of row `g` under `wit`, with public input `pi`.
    pub open spec fn row_residual(&self, wit: Seq<Fr>, g: int, pi: int) -> int {
        gate_residual(self.row_wire_vals(wit, g), self.row_selector_vals(g), pi)
    }

    /// Whether `wit` and the public inputs `online` satisfy every gate and
    /// every boolean constraint.
    pub open spec fn is_satisfied_by(&self, wit: Seq<Fr>, online: Seq<Fr>) -> bool {
        &&& wit.len() == self.witness@.len()
        &&& online.len() == self.public_vars_constraint_indices@.len()
        &&& forall|g: int|
            0 <= g < self.gates@.len() ==> #[trigger] self.row_residual(
                wit,
                g,
                public_input_at(self.public_vars_constraint_indices@, online, g),
            ) == 0
        &&& forall|k: int, w: int|
            0 <= k < self.boolean_constraint_indices@.len() && 1 <= w <= 3 ==> #[trigger] self.wire_is_bit(
                wit,
                self.boolean_constraint_indices@[k] as int,
                w,
            )
    }

    /// Whether wire `w` of row `g` holds a value `x` with `x (x - 1) = 0`.
    pub open spec fn wire_is_bit(&self, wit: Seq<Fr>, g: int, w: int) -> bool {
        let x = wit[self.gates@[g].wires[w] as int].val();
        fmul(x, fsub(x, 1)) == 0
    }

    /// An empty circuit holding the zero and the one variable.
    pub fn new() -> (r: TurboCS)
        ensures
            r.wf(),
            r.gates@.len() == 0,
            r.witness@.len() == 2,
            r.boolean_constraint_indices@.len() == 0,
            r.public_vars_constraint_indices@.len() == 0,
    {
        let mut witness: Vec<Fr> = Vec::new();
        witness.push(Fr::zero());
        witness.push(Fr::one());
        TurboCS {
            gates: Vec::new(),
            witness,
            boolean_constraint_indices: Vec::new(),
            public_vars_constraint_indices: Vec::new(),
            public_vars_witness_indices: Vec::new(),
        }
    }

    /// The number of gates.
    pub fn size(&self) -> (r: usize)
        ensures
            r == self.gates@.len(),
    {
        self.gates.len()
    }

    /// The number of variables.
    pub fn num_vars(&self) -> (r: usize)
        ensures
            r == self.witness@.len(),
    {
        self.witness.len()
    }

    /// The variable that holds zero.
    pub fn zero_var(&self) -> (r: VarIndex)
        ensures
            r == 0,
    {
        0
    }

    /// The variable that holds one.
    pub fn one_var(&self) -> (r: VarIndex)
        ensures
            r == 1,
    {
        1
    }

    /// Adds a variable holding `value` and returns its index.
    pub fn new_variable(&mut self, value: Fr) -> (r: VarIndex)
        requires
            old(self).wf(),
            old(self).witness@.len() < usize::MAX,
        ensures
            final(self).wf(),
            r == old(self).witness@.len(),
            final(self).witness@ == old(self).witness@.push(value),
            final(self).gates@ == old(self).gates@,
            final(self).boolean_constraint_indices@ == old(self).boolean_constraint_indices@,
            final(self).public_vars_constraint_indices@ == old(
                self,
            ).public_vars_constraint_indices@,
            final(self).public_vars_witness_indices@ == old(self).public_vars_witness_indices@,
    {
        let r = self.witness.len();
        self.witness.push(value);
        r
    }

    /// Adds one variable per value, in order.
    pub fn add_variables(&mut self, values: &[Fr])
        requires
            old(self).wf(),
            old(self).witness@.len() + values@.len() <= usize::MAX,
        ensures
            final(self).wf(),
            final(self).witness@ == old(self).witness@ + values@,
            final(self).gates@ == old(self).gates@,
            final(self).boolean_constraint_indices@ == old(self).boolean_constraint_indices@,
            final(self).public_vars_constraint_indices@ == old(
                self,
            ).public_vars_constraint_indices@,
            final(self).public_vars_witness_indices@ == old(self).public_vars_witness_indices@,
    {
        let mut i: usize = 0;
        while i < values.len()
            invariant
                self.wf(),
                i <= values@.len(),
                old(self).witness@.len() + values@.len() <= usize::MAX,
                self.witness@ == old(self).witness@ + values@.subrange(0, i as int),
                self.gates@ == old(self).gates@,
                self.boolean_constraint_indices@ == old(self).boolean_constraint_indices@,
                self.public_vars_constraint_indices@ == old(self).public_vars_constraint_indices@,
                self.public_vars_witness_indices@ == old(self).public_vars_witness_indices@,
            decreases values@.len() - i,
        {
            self.new_variable(values[i]);
            i = i + 1;
            proof {
                assert(self.witness@ =~= old(self).witness@ + values@.subrange(0, i as int));
            }
        }
        proof {
            assert(values@.subrange(0, values@.len() as int) =~= values@);
        }
    }

    /// Appends one gate.
    pub fn insert_gate(&mut self, wires: [VarIndex; 5], selectors: [Fr; 13])
        requires
            old(self).wf(),
            forall|w: int| 0 <= w < 5 ==> wires@[w] < old(self).witness@.len(),
        ensures
            final(self).wf(),
            final(self).gates@ == old(self).gates@.push(Gate { wires, selectors }),
            final(self).witness@ == old(self).witness@,
            final(self).boolean_constraint_indices@ == old(self).boolean_constraint_indices@,
            final(self).public_vars_constraint_indices@ == old(
                self,
            ).public_vars_constraint_indices@,
            final(self).public_vars_witness_indices@ == old(self).public_vars_witness_indices@,
    {
        self.gates.push(Gate { wires, selectors });
    }

    /// Appends a gate `left + right = out`.
    pub fn insert_add_gate(&mut self, left: VarIndex, right: VarIndex, out: VarIndex)
        requires
            old(self).wf(),
            left < old(self).witness@.len(),
            right < old(self).witness@.len(),
            out < old(self).witness@.len(),
        ensures
            final(self).wf(),
            final(self).gates@.len() == old(self).gates@.len() + 1,
            final(self).gates@.subrange(0, old(self).gates@.len() as int) == old(self).gates@,
            final(self).witness@ == old(self).witness@,
            final(self).boolean_constraint_indices@ == old(self).boolean_constraint_indices@,
            final(self).public_vars_constraint_indices@ == old(
                self,
            ).public_vars_constraint_indices@,
            final(self).public_vars_witness_indices@ == old(self).public_vars_witness_indices@,
            final(self).row_is(old(self).gates@.len() as int, wires5(left, right, 0, 0, out), add_sels()),
            forall|wit: Seq<Fr>, pi: int|
                wit.len() == old(self).witness@.len() && 0 <= pi < modulus() ==> #[trigger] final(self).row_residual(
                    wit,
                    old(self).gates@.len() as int,
                    pi,
                ) == fsub(
                    fadd(fadd(wit[left as int].val(), wit[right as int].val()), pi),
                    wit[out as int].val(),
                ),
    {
        let zero = Fr::zero();
        let one = Fr::one();
        let sels = [one, one, zero, zero, zero, zero, zero, zero, zero, zero, zero, zero, one];
        self.insert_gate([left, right, 0, 0, out], sels);
        proof {
            assert(self.gates@.subrange(0, old(self).gates@.len() as int) =~= old(self).gates@);
            assert(self.gates@[old(self).gates@.len() as int].wires@ =~= wires5(left, right, 0, 0, out));
            assert forall|t: int| 0 <= t < 13 implies (#[trigger] self.gates@[old(self).gates@.len() as int].selectors[t]).val()
                == add_sels()[t] by {
                assert(self.gates@[old(self).gates@.len() as int].selectors@ == sels@);
            }
            let n = old(self).gates@.len() as int;
            assert forall|wit: Seq<Fr>, pi: int|
                wit.len() == old(self).witness@.len() && 0 <= pi < modulus() implies #[trigger] self.row_residual(wit, n, pi) == fsub(fadd(fadd(wit[left as int].val(), wit[right as int].val()), pi), wit[out as int].val()) by {
                let q = self.row_selector_vals(n);
                assert(q =~= seq![1int, 1, 0, 0, 0, 0, 0, 0, 0, 0, 0, 0, 1]);
            }
        }
    }

    /// Appends a gate `left * right = out`.
    pub fn insert_mul_gate(&mut self, left: VarIndex, right: VarIndex, out: VarIndex)
        requires
            old(self).wf(),
            left < old(self).witness@.len(),
            right < old(self).witness@.len(),
            out < old(self).witness@.len(),
        ensures
            final(self).wf(),
            final(self).gates@.len() == old(self).gates@.len() + 1,
            final(self).gates@.subrange(0, old(self).gates@.len() as int) == old(self).gates@,
            final(self).witness@ == old(self).witness@,
            final(self).boolean_constraint_indices@ == old(self).boolean_constraint_indices@,
            final(self).public_vars_constraint_indices@ == old(
                self,
            ).public_vars_constraint_indices@,
            final(self).public_vars_witness_indices@ == old(self).public_vars_witness_indices@,
            final(self).row_is(old(self).gates@.len() as int, wires5(left, right, 0, 0, out), mul_sels()),
            forall|wit: Seq<Fr>, pi: int|
                wit.len() == old(self).witness@.len() && 0 <= pi < modulus() ==> #[trigger] final(self).row_residual(
                    wit,
                    old(self).gates@.len() as int,
                    pi,
                ) == fsub(
                    fadd(fmul(wit[left as int].val(), wit[right as int].val()), pi),
                    wit[out as int].val(),
                ),
    {
        let zero = Fr::zero();
        let one = Fr::one();
        let sels = [zero, zero, zero, zero, one, zero, zero, zero, zero, zero, zero, zero, one];
        self.insert_gate([left, right, 0, 0, out], sels);
        proof {
            assert(self.gates@.subrange(0, old(self).gates@.len() as int) =~= old(self).gates@);
            assert(self.gates@[old(self).gates@.len() as int].wires@ =~= wires5(left, right, 0, 0, out));
            assert forall|t: int| 0 <= t < 13 implies (#[trigger] self.gates@[old(self).gates@.len() as int].selectors[t]).val()
                == mul_sels()[t] by {
                assert(self.gates@[old(self).gates@.len() as int].selectors@ == sels@);
            }
            let n = old(self).gates@.len() as int;
            assert forall|wit: Seq<Fr>, pi: int|
                wit.len() == old(self).witness@.len() && 0 <= pi < modulus() implies #[trigger] self.row_residual(wit, n, pi) == fsub(fadd(fmul(wit[left as int].val(), wit[right as int].val()), pi), wit[out as int].val()) by {
                let q = self.row_selector_vals(n);
                assert(q =~= seq![0int, 0, 0, 0, 1, 0, 0, 0, 0, 0, 0, 0, 1]);
            }
        }
    }

    /// The number of wires of a gate.
    pub fn n_wires_per_gate() -> (r: usize)
        ensures
            r == 5,
    {
        N_WIRES_PER_GATE
    }

    /// The number of selectors of a gate.
    pub fn num_selectors(&self) -> (r: usize)
        ensures
            r == 13,
    {
        N_SELECTORS
    }

    /// The wiring table: for each wire, the variable it carries at each gate.
    pub fn wiring(&self) -> (r: Vec<Vec<VarIndex>>)
        ensures
            r@.len() == 5,
            forall|w: int| 0 <= w < 5 ==> (#[trigger] r@[w])@ == self.wiring_col(w),
    {
        let mut r: Vec<Vec<VarIndex>> = Vec::new();
        let mut w: usize = 0;
        while w < 5
            invariant
                w <= 5,
                r@.len() == w,
                forall|j: int| 0 <= j < w ==> (#[trigger] r@[j])@ == self.wiring_col(j),
            decreases 5 - w,
        {
            let mut col: Vec<VarIndex> = Vec::new();
            let mut g: usize = 0;
            while g < self.gates.len()
                invariant
                    w < 5,
                    g <= self.gates@.len(),
                    col@ == self.wiring_col(w as int).subrange(0, g as int),
                decreases self.gates@.len() - g,
            {
                col.push(self.gates[g].wires[w]);
                g = g + 1;
                assert(col@ =~= self.wiring_col(w as int).subrange(0, g as int));
            }
            assert(col@ =~= self.wiring_col(w as int));
            r.push(col);
            w = w + 1;
        }
        r
    }

    /// The values of selector `index` at every gate.
    pub fn selector(&self, index: usize) -> (r: Result<Vec<Fr>, PlonkError>)
        ensures
            r is Err <==> index >= 13,
            r is Err ==> r == Err::<Vec<Fr>, PlonkError>(PlonkError::FuncParamsError),
            r matches Ok(v) ==> v@ == self.gates@.map_values(|g: Gate| g.selectors[index as int]),
    {
        if index >= 13 {
            return Err(PlonkError::FuncParamsError);
        }
        let mut v: Vec<Fr> = Vec::new();
        let mut g: usize = 0;
        while g < self.gates.len()
            invariant
                index < 13,
                g <= self.gates@.len(),
                v@ == self.gates@.map_values(|g: Gate| g.selectors[index as int]).subrange(
                    0,
                    g as int,
                ),
            decreases self.gates@.len() - g,
        {
            v.push(self.gates[g].selectors[index]);
            g = g + 1;
            assert(v@ =~= self.gates@.map_values(|g: Gate| g.selectors[index as int]).subrange(
                0,
                g as int,
            ));
        }
        assert(v@ =~= self.gates@.map_values(|g: Gate| g.selectors[index as int]));
        Ok(v)
    }

    /// Every gate from row `from` on has residual zero on this circuit's own
    /// witness, with no public input.
    pub open spec fn rows_hold_from(&self, from: int) -> bool {
        forall|r: int|
            from <= r < self.gates@.len() ==> #[trigger] self.row_residual(self.witness@, r, 0) == 0
    }

    /// Whether `x` is the variable on some wire of some gate.
    pub open spec fn is_wire_var(&self, x: usize) -> bool {
        exists|g: int, w: int|
            0 <= g < self.gates@.len() && 0 <= w < 5 && #[trigger] self.gates@[g].wires[w] == x
    }

    /// The wiring flattened, wire after wire.
    fn flat_wiring_vec(&self) -> (r: Vec<usize>)
        ensures
            r@ == self.flat_wiring(),
            forall|p: int| 0 <= p < r@.len() ==> self.is_wire_var(#[trigger] r@[p]),
    {
        let n = self.gates.len();
        let mut v: Vec<usize> = Vec::new();
        let mut w: usize = 0;
        while w < 5
            invariant
                w <= 5,
                n == self.gates@.len(),
                v@ == self.wiring_prefix(w as nat),
                forall|p: int| 0 <= p < v@.len() ==> self.is_wire_var(#[trigger] v@[p]),
            decreases 5 - w,
        {
            let mut g: usize = 0;
            while g < n
                invariant
                    w < 5,
                    g <= n,
                    n == self.gates@.len(),
                    v@ == self.wiring_prefix(w as nat) + self.wiring_col(w as int).subrange(
                        0,
                        g as int,
                    ),
                    forall|p: int| 0 <= p < v@.len() ==> self.is_wire_var(#[trigger] v@[p]),
                decreases n - g,
            {
                let x = self.gates[g].wires[w];
                assert(self.gates@[g as int].wires[w as int] == x);
                v.push(x);
                g = g + 1;
                proof {
                    assert(v@ =~= self.wiring_prefix(w as nat) + self.wiring_col(w as int).subrange(
                        0,
                        g as int,
                    ));
                }
            }
            proof {
                assert(self.wiring_col(w as int).subrange(0, n as int) =~= self.wiring_col(
                    w as int,
                ));
            }
            w = w + 1;
        }
        v
    }

    /// The permutation that the copy constraints induce on the flattened
    /// wire positions: each position goes to the next one that holds the same
    /// variable, and the last one back to the first, one cycle per variable.
    pub fn compute_permutation(&self) -> (perm: Vec<usize>)
        requires
            self.wf(),
        ensures
            perm@.len() == self.flat_wiring().len(),
            forall|p: int|
                0 <= p < perm@.len() ==> is_next_occurrence(
                    self.flat_wiring(),
                    p,
                    #[trigger] perm@[p] as int,
                ),
    {
        let v = self.flat_wiring_vec();
        let total = v.len();
        let nv = self.witness.len();
        let mut perm: Vec<usize> = Vec::new();
        let mut i: usize = 0;
        while i < total
            invariant
                i <= total,
                perm@.len() == i,
            decreases total - i,
        {
            perm.push(0);
            i = i + 1;
        }
        let mut marked: Vec<bool> = Vec::new();
        i = 0;
        while i < nv
            invariant
                i <= nv,
                marked@.len() == i,
                forall|x: int| 0 <= x < i ==> !marked@[x],
            decreases nv - i,
        {
            marked.push(false);
            i = i + 1;
        }
        assert forall|p: int| 0 <= p < total implies v@[p] < nv by {
            assert(self.is_wire_var(v@[p]));
        }
        i = 0;
        while i < total
            invariant
                self.wf(),
                v@ == self.flat_wiring(),
                total == v@.len(),
                nv == self.witness@.len(),
                i <= total,
                perm@.len() == total,
                marked@.len() == nv,
                forall|p: int| 0 <= p < total ==> #[trigger] v@[p] < nv,
                forall|x: int|
                    0 <= x < nv ==> (#[trigger] marked@[x] <==> exists|p: int|
                        0 <= p < i && v@[p] == x),
                forall|p: int|
                    0 <= p < total && marked@[v@[p] as int] ==> is_next_occurrence(
                        v@,
                        p,
                        #[trigger] perm@[p] as int,
                    ),
            decreases total - i,
        {
            let value = v[i];
            if !marked[value] {
                assert forall|k: int| 0 <= k < i implies v@[k] != value by {
                    if v@[k] == value {
                        assert(marked@[value as int]);
                    }
                }
                let ghost perm0 = perm@;
                let mut prev = i;
                let mut j = i + 1;
                while j < total
                    invariant
                        v@ == self.flat_wiring(),
                        total == v@.len(),
                        i < total,
                        i <= prev < j <= total,
                        v@[prev as int] == value,
                        v@[i as int] == value,
                        perm@.len() == total,
                        perm0.len() == total,
                        forall|k: int| prev < k < j ==> v@[k] != value,
                        forall|k: int| 0 <= k < i ==> v@[k] != value,
                        forall|p: int|
                            0 <= p < total && v@[p] == value && p < j && p != prev
                                ==> is_next_occurrence(v@, p, #[trigger] perm@[p] as int),
                        forall|p: int|
                            0 <= p < total && v@[p] != value ==> #[trigger] perm@[p]
                                == perm0[p],
                    decreases total - j,
                {
                    if v[j] == value {
                        perm.set(prev, j);
                        prev = j;
                    }
                    j = j + 1;
                }
                perm.set(prev, i);
                marked.set(value, true);
                assert forall|x: int|
                    0 <= x < nv implies (#[trigger] marked@[x] <==> exists|p: int|
                        0 <= p < i + 1 && v@[p] == x) by {
                    if x == value {
                        assert(v@[i as int] == x);
                    }
                }
            } else {
                assert forall|x: int|
                    0 <= x < nv implies (#[trigger] marked@[x] <==> exists|p: int|
                        0 <= p < i + 1 && v@[p] == x) by {
                    if x == value {
                        assert(v@[i as int] == x);
                    }
                }
            }
            i = i + 1;
        }
        perm
    }

    /// The value on each flattened wire position: position `p` holds the value
    /// of the variable at position `p` of the flattened wiring.
    pub fn extend_witness(&self, witness: &[Fr]) -> (r: Vec<Fr>)
        requires
            forall|g: int, w: int|
                0 <= g < self.gates@.len() && 0 <= w < 5 ==> (#[trigger] self.gates@[g].wires[w])
                    < witness@.len(),
        ensures
            r@.len() == self.flat_wiring().len(),
            forall|p: int|
                0 <= p < r@.len() ==> #[trigger] r@[p] == witness@[self.flat_wiring()[p] as int],
    {
        let v = self.flat_wiring_vec();
        let mut r: Vec<Fr> = Vec::new();
        let mut i: usize = 0;
        while i < v.len()
            invariant
                v@ == self.flat_wiring(),
                forall|p: int| 0 <= p < v@.len() ==> self.is_wire_var(#[trigger] v@[p]),
                forall|g: int, w: int|
                    0 <= g < self.gates@.len() && 0 <= w < 5 ==> (
                    #[trigger] self.gates@[g].wires[w]) < witness@.len(),
                i <= v@.len(),
                r@.len() == i,
                forall|p: int| 0 <= p < i ==> v@[p] < witness@.len(),
                forall|p: int| 0 <= p < i ==> #[trigger] r@[p] == witness@[v@[p] as int],
            decreases v@.len() - i,
        {
            proof {
                let x = v@[i as int];
                assert(self.is_wire_var(x));
                let (g, w) = choose|g: int, w: int|
                    0 <= g < self.gates@.len() && 0 <= w < 5 && #[trigger] self.gates@[g].wires[w]
                        == x;
                assert(self.gates@[g].wires[w] < witness@.len());
            }
            r.push(witness[v[i]]);
            i = i + 1;
        }
        r
    }

    /// Appends a gate `var = constant`.
    pub fn insert_constant_gate(&mut self, var: VarIndex, constant: Fr)
        requires
            old(self).wf(),
            var < old(self).witness@.len(),
        ensures
            final(self).wf(),
            final(self).gates@.len() == old(self).gates@.len() + 1,
            final(self).gates@.subrange(0, old(self).gates@.len() as int) == old(self).gates@,
            final(self).witness@ == old(self).witness@,
            final(self).boolean_constraint_indices@ == old(self).boolean_constraint_indices@,
            final(self).public_vars_constraint_indices@ == old(
                self,
            ).public_vars_constraint_indices@,
            final(self).public_vars_witness_indices@ == old(self).public_vars_witness_indices@,
            forall|wit: Seq<Fr>, pi: int|
                wit.len() == old(self).witness@.len() && 0 <= pi < modulus() ==> #[trigger] final(self).row_residual(wit, old(self).gates@.len() as int, pi) == fadd(
                    wit[var as int].val(),
                    fadd(fneg(constant.val()), pi),
                ),
            final(self).row_is(
                old(self).gates@.len() as int,
                wires5(var, 0, 0, 0, 0),
                const_sels(constant.val()),
            ),
    {
        let zero = Fr::zero();
        let one = Fr::one();
        let c = constant.neg();
        let sels = [one, zero, zero, zero, zero, zero, c, zero, zero, zero, zero, zero, zero];
        self.insert_gate([var, 0, 0, 0, 0], sels);
        proof {
            assert(self.gates@.subrange(0, old(self).gates@.len() as int) =~= old(self).gates@);
            let n = old(self).gates@.len() as int;
            assert forall|wit: Seq<Fr>, pi: int|
                wit.len() == old(self).witness@.len() && 0 <= pi < modulus() implies #[trigger] self.row_residual(wit, n, pi) == fadd(
                wit[var as int].val(),
                fadd(fneg(constant.val()), pi),
            ) by {
                let q = self.row_selector_vals(n);
                assert(q =~= seq![1int, 0, 0, 0, 0, 0, c.val(), 0, 0, 0, 0, 0, 0]);
            }
            assert(self.gates@[n].wires@ =~= wires5(var, 0, 0, 0, 0));
            assert forall|t: int| 0 <= t < 13 implies (#[trigger] self.gates@[n].selectors[t]).val()
                == const_sels(constant.val())[t] by {
                assert(self.gates@[n].selectors@ == sels@);
            }
        }
    }

    /// Makes `var` a public input: appends a gate whose residual is
    /// `pi - var` and records the row and the variable.
    pub fn prepare_pi_variable(&mut self, var: VarIndex)
        requires
            old(self).wf(),
            var < old(self).witness@.len(),
        ensures
            final(self).wf(),
            final(self).gates@.len() == old(self).gates@.len() + 1,
            final(self).gates@.subrange(0, old(self).gates@.len() as int) == old(self).gates@,
            final(self).witness@ == old(self).witness@,
            final(self).boolean_constraint_indices@ == old(self).boolean_constraint_indices@,
            final(self).public_vars_constraint_indices@ == old(
                self,
            ).public_vars_constraint_indices@.push(old(self).gates@.len() as usize),
            final(self).public_vars_witness_indices@ == old(
                self,
            ).public_vars_witness_indices@.push(var),
            forall|wit: Seq<Fr>, pi: int|
                wit.len() == old(self).witness@.len() && 0 <= pi < modulus() ==> #[trigger] final(self).row_residual(wit, old(self).gates@.len() as int, pi) == fsub(
                    pi,
                    wit[var as int].val(),
                ),
    {
        let cs_index = self.gates.len();
        let zero = Fr::zero();
        let one = Fr::one();
        let sels = [zero, zero, zero, zero, zero, zero, zero, zero, zero, zero, zero, zero, one];
        self.insert_gate([0, 0, 0, 0, var], sels);
        self.public_vars_constraint_indices.push(cs_index);
        self.public_vars_witness_indices.push(var);
        proof {
            assert(self.gates@.subrange(0, old(self).gates@.len() as int) =~= old(self).gates@);
            let n = old(self).gates@.len() as int;
            assert forall|wit: Seq<Fr>, pi: int|
                wit.len() == old(self).witness@.len() && 0 <= pi < modulus() implies #[trigger] self.row_residual(wit, n, pi) == fsub(
                pi,
                wit[var as int].val(),
            ) by {
                let q = self.row_selector_vals(n);
                assert(q =~= seq![0int, 0, 0, 0, 0, 0, 0, 0, 0, 0, 0, 0, 1]);
            }
        }
    }

    /// Requires wires 1, 2 and 3 of the last gate to hold bits.
    pub fn attach_boolean_constraint_to_gate(&mut self)
        requires
            old(self).wf(),
            old(self).gates@.len() > 0,
        ensures
            final(self).wf(),
            final(self).gates@ == old(self).gates@,
            final(self).witness@ == old(self).witness@,
            final(self).boolean_constraint_indices@ == old(
                self,
            ).boolean_constraint_indices@.push((old(self).gates@.len() - 1) as usize),
            final(self).public_vars_constraint_indices@ == old(
                self,
            ).public_vars_constraint_indices@,
            final(self).public_vars_witness_indices@ == old(self).public_vars_witness_indices@,
    {
        let last = self.gates.len() - 1;
        self.boolean_constraint_indices.push(last);
    }

    /// Appends gates that constrain nothing until the number of gates is the
    /// next power of two (one for an empty circuit), the size of the circuit's
    /// evaluation domain; a circuit whose size is already a power of two is
    /// left as it is. The domain must divide `l - 1`, which holds for the
    /// sizes 1, 2 and 4 only: for a larger circuit nothing is changed and
    /// `GroupNotFound` is returned.
    pub fn pad(&mut self) -> (r: Result<(), PlonkError>)
        requires
            old(self).wf(),
        ensures
            r is Ok <==> old(self).gates@.len() <= 4,
            r is Err ==> *final(self) == *old(self) && r == Err::<(), PlonkError>(
                PlonkError::GroupNotFound(old(self).gates@.len() as usize),
            ) && forall|p: nat|
                #[trigger] is_power_of_two(p) && p >= old(self).gates@.len() ==> (modulus() - 1)
                    % (p as int) != 0,
            r is Ok ==> {
                &&& final(self).wf()
                &&& is_power_of_two(final(self).gates@.len() as nat)
                &&& (modulus() - 1) % (final(self).gates@.len() as int) == 0
                &&& final(self).gates@.len() >= old(self).gates@.len()
                &&& final(self).gates@.len() == 1 || final(self).gates@.len() < 2 * old(
                    self,
                ).gates@.len()
                &&& final(self).gates@.subrange(0, old(self).gates@.len() as int) == old(
                    self,
                ).gates@
                &&& forall|g: int|
                    old(self).gates@.len() <= g < final(self).gates@.len() ==> is_dummy_gate(
                        #[trigger] final(self).gates@[g],
                    )
                &&& final(self).witness@ == old(self).witness@
                &&& final(self).boolean_constraint_indices@ == old(
                    self,
                ).boolean_constraint_indices@
                &&& final(self).public_vars_constraint_indices@ == old(
                    self,
                ).public_vars_constraint_indices@
                &&& final(self).public_vars_witness_indices@ == old(
                    self,
                ).public_vars_witness_indices@
            },
    {
        if self.gates.len() > 4 {
            proof {
                assert forall|p: nat|
                    #[trigger] is_power_of_two(p) && p >= old(self).gates@.len() implies (modulus()
                        - 1) % (p as int) != 0 by {
                    lemma_no_domain_above_four(p);
                }
            }
            return Err(PlonkError::GroupNotFound(self.gates.len()));
        }
        let n = self.gates.len();
        let mut p: usize = 1;
        while p < n
            invariant
                n <= 4,
                1 <= p <= 4,
                is_power_of_two(p as nat),
                p == 1 || p < 2 * n,
            decreases usize::MAX - p,
        {
            assert(is_power_of_two((2 * p) as nat)) by {
                assert((2 * p) as nat / 2 == p as nat);
            }
            p = 2 * p;
        }
        let zero = Fr::zero();
        let sels = [zero, zero, zero, zero, zero, zero, zero, zero, zero, zero, zero, zero, zero];
        assert(is_dummy_gate(Gate { wires: [0, 0, 0, 0, 0], selectors: sels }));
        while self.gates.len() < p
            invariant
                self.wf(),
                is_dummy_gate(Gate { wires: [0, 0, 0, 0, 0], selectors: sels }),
                n == old(self).gates@.len(),
                n <= self.gates@.len() <= p,
                self.gates@.subrange(0, n as int) == old(self).gates@,
                forall|g: int|
                    n <= g < self.gates@.len() ==> is_dummy_gate(#[trigger] self.gates@[g]),
                self.witness@ == old(self).witness@,
                self.boolean_constraint_indices@ == old(self).boolean_constraint_indices@,
                self.public_vars_constraint_indices@ == old(self).public_vars_constraint_indices@,
                self.public_vars_witness_indices@ == old(self).public_vars_witness_indices@,
            decreases p - self.gates@.len(),
        {
            self.insert_gate([0, 0, 0, 0, 0], sels);
            assert(self.gates@.subrange(0, n as int) =~= old(self).gates@);
        }
        assert((modulus() - 1) % 4 == 0 && (modulus() - 1) % 2 == 0 && (modulus() - 1) % 1 == 0);
        proof {
            lemma_power_of_two_upto_four(p as nat);
        }
        Ok(())
    }

    /// Evaluates a gate's residual on the values of the five wires, the
    /// thirteen selectors and the public input.
    pub fn eval_gate_func(wire_vals: &[Fr], sel_vals: &[Fr], pub_input: &Fr) -> (r: Result<
        Fr,
        PlonkError,
    >)
        ensures
            r is Ok <==> wire_vals@.len() == 5 && sel_vals@.len() == 13,
            r is Err ==> r == Err::<Fr, PlonkError>(PlonkError::FuncParamsError),
            r matches Ok(x) ==> x.val() == gate_residual(
                vals(wire_vals@),
                vals(sel_vals@),
                pub_input.val(),
            ),
    {
        if wire_vals.len() != 5 || sel_vals.len() != 13 {
            return Err(PlonkError::FuncParamsError);
        }
        let w = wire_vals;
        let q = sel_vals;
        let add1 = q[0].mul(&w[0]);
        let add2 = q[1].mul(&w[1]);
        let add3 = q[2].mul(&w[2]);
        let add4 = q[3].mul(&w[3]);
        let zero = Fr::zero();
        let mul1 = if q[4].is_zero() {
            zero
        } else {
            q[4].mul(&w[0].mul(&w[1]))
        };
        let mul2 = if q[5].is_zero() {
            zero
        } else {
            q[5].mul(&w[2].mul(&w[3]))
        };
        let constant = q[6].add(pub_input);
        let ecc = if q[7].is_zero() {
            zero
        } else {
            q[7].mul(&w[0]).mul(&w[1]).mul(&w[2]).mul(&w[3]).mul(&w[4])
        };
        let hash1 = if q[8].is_zero() {
            zero
        } else {
            q[8].mul(&w[0].pow(5))
        };
        let hash2 = if q[9].is_zero() {
            zero
        } else {
            q[9].mul(&w[1].pow(5))
        };
        let hash3 = if q[10].is_zero() {
            zero
        } else {
            q[10].mul(&w[2].pow(5))
        };
        let hash4 = if q[11].is_zero() {
            zero
        } else {
            q[11].mul(&w[3].pow(5))
        };
        let out = q[12].mul(&w[4]);
        let s1 = add1.add(&add2).add(&add3).add(&add4);
        let s2 = s1.add(&mul1).add(&mul2).add(&constant);
        let s3 = s2.add(&ecc).add(&hash1).add(&hash2).add(&hash3).add(&hash4);
        Ok(s3.sub(&out))
    }

    /// The coefficient of each selector in a gate's residual, given the values
    /// of the five wires.
    pub fn eval_selector_multipliers(wire_vals: &[Fr]) -> (r: Result<Vec<Fr>, PlonkError>)
        ensures
            r is Ok <==> wire_vals@.len() == 5,
            r is Err ==> r == Err::<Vec<Fr>, PlonkError>(PlonkError::FuncParamsError),
            r matches Ok(v) ==> vals(v@) == selector_multipliers(vals(wire_vals@)),
    {
        if wire_vals.len() != 5 {
            return Err(PlonkError::FuncParamsError);
        }
        let w = wire_vals;
        let w0w1 = w[0].mul(&w[1]);
        let w2w3 = w[2].mul(&w[3]);
        let all = w0w1.mul(&w[2]).mul(&w[3]).mul(&w[4]);
        let v = vec![
            w[0],
            w[1],
            w[2],
            w[3],
            w0w1,
            w2w3,
            Fr::one(),
            all,
            w[0].pow(5),
            w[1].pow(5),
            w[2].pow(5),
            w[3].pow(5),
            w[4].neg(),
        ];
        assert(vals(v@) =~= selector_multipliers(vals(wire_vals@)));
        Ok(v)
    }

    /// The public input that enters row `g`.
    fn public_input_for_row(&self, online_vars: &[Fr], g: usize) -> (r: Fr)
        ensures
            r.val() == public_input_at(self.public_vars_constraint_indices@, online_vars@, g as int),
    {
        let c = &self.public_vars_constraint_indices;
        let mut k: usize = 0;
        proof {
            assert(c@.subrange(0, c@.len() as int) =~= c@);
            assert(online_vars@.subrange(0, online_vars@.len() as int) =~= online_vars@);
        }
        while k < c.len() && k < online_vars.len()
            invariant
                c@ == self.public_vars_constraint_indices@,
                k <= c@.len(),
                k <= online_vars@.len(),
                public_input_at(c@, online_vars@, g as int) == public_input_at(
                    c@.subrange(k as int, c@.len() as int),
                    online_vars@.subrange(k as int, online_vars@.len() as int),
                    g as int,
                ),
            decreases c@.len() - k,
        {
            let ghost cs = c@.subrange(k as int, c@.len() as int);
            let ghost os = online_vars@.subrange(k as int, online_vars@.len() as int);
            if c[k] == g {
                assert(cs[0] == g && os[0] == online_vars@[k as int]);
                assert(public_input_at(cs, os, g as int) == online_vars@[k as int].val());
                return online_vars[k];
            }
            k = k + 1;
            proof {
                assert(cs.drop_first() =~= c@.subrange(k as int, c@.len() as int));
                assert(os.drop_first() =~= online_vars@.subrange(
                    k as int,
                    online_vars@.len() as int,
                ));
            }
        }
        proof {
            let cs = c@.subrange(k as int, c@.len() as int);
            let os = online_vars@.subrange(k as int, online_vars@.len() as int);
            assert(cs.len() == 0 || os.len() == 0);
            assert(public_input_at(cs, os, g as int) == 0);
        }
        Fr::zero()
    }

    /// Checks that `witness` and the public inputs `online_vars` satisfy every
    /// gate and every boolean constraint.
    pub fn verify_witness(&self, witness: &[Fr], online_vars: &[Fr]) -> (r: Result<(), PlonkError>)
        requires
            self.wf(),
        ensures
            r is Ok <==> self.is_satisfied_by(witness@, online_vars@),
            r is Err ==> r == Err::<(), PlonkError>(PlonkError::VerificationError),
    {
        if witness.len() != self.witness.len() || online_vars.len()
            != self.public_vars_constraint_indices.len() {
            return Err(PlonkError::VerificationError);
        }
        let n = self.gates.len();
        let mut g: usize = 0;
        while g < n
            invariant
                self.wf(),
                n == self.gates@.len(),
                witness@.len() == self.witness@.len(),
                g <= n,
                forall|h: int|
                    0 <= h < g ==> #[trigger] self.row_residual(
                        witness@,
                        h,
                        public_input_at(self.public_vars_constraint_indices@, online_vars@, h),
                    ) == 0,
            decreases n - g,
        {
            let pi = self.public_input_for_row(online_vars, g);
            let gate = self.gates[g];
            let wv = vec![
                witness[gate.wires[0]],
                witness[gate.wires[1]],
                witness[gate.wires[2]],
                witness[gate.wires[3]],
                witness[gate.wires[4]],
            ];
            let sv: &[Fr] = &gate.selectors;
            proof {
                assert(vals(wv@) =~= self.row_wire_vals(witness@, g as int));
                assert(vals(sv@) =~= self.row_selector_vals(g as int));
            }
            let res = Self::eval_gate_func(wv.as_slice(), sv, &pi);
            match res {
                Ok(x) => {
                    if !x.is_zero() {
                        assert(self.row_residual(
                            witness@,
                            g as int,
                            public_input_at(self.public_vars_constraint_indices@, online_vars@, g as int),
                        ) != 0);
                        return Err(PlonkError::VerificationError);
                    }
                },
                Err(_) => {
                    return Err(PlonkError::VerificationError);
                },
            }
            g = g + 1;
        }
        let one = Fr::one();
        let b = &self.boolean_constraint_indices;
        let mut k: usize = 0;
        while k < b.len()
            invariant
                self.wf(),
                witness@.len() == self.witness@.len(),
                k <= b@.len(),
                b@ == self.boolean_constraint_indices@,
                one.val() == 1,
                forall|h: int|
                    0 <= h < self.gates@.len() ==> #[trigger] self.row_residual(
                        witness@,
                        h,
                        public_input_at(self.public_vars_constraint_indices@, online_vars@, h),
                    ) == 0,
                forall|j: int, w: int|
                    0 <= j < k && 1 <= w <= 3 ==> #[trigger] self.wire_is_bit(
                        witness@,
                        b@[j] as int,
                        w,
                    ),
            decreases b@.len() - k,
        {
            let row = b[k];
            let mut w: usize = 1;
            while w <= 3
                invariant
                    self.wf(),
                    witness@.len() == self.witness@.len(),
                    k < b@.len(),
                    row == b@[k as int],
                    b@ == self.boolean_constraint_indices@,
                    1 <= w <= 4,
                    one.val() == 1,
                    forall|v: int| 1 <= v < w ==> #[trigger] self.wire_is_bit(witness@, row as int, v),
                decreases 4 - w,
            {
                let x = witness[self.gates[row].wires[w]];
                let t = x.mul(&x.sub(&one));
                if !t.is_zero() {
                    assert(!self.wire_is_bit(witness@, b@[k as int] as int, w as int));
                    return Err(PlonkError::VerificationError);
                }
                assert(self.wire_is_bit(witness@, row as int, w as int));
                w = w + 1;
            }
            k = k + 1;
        }
        Ok(())
    }

    /// Everything recorded before is kept: variables, gates and indices only
    /// grow at their ends.
    pub open spec fn extends(&self, old_cs: &TurboCS) -> bool {
        &&& self.witness@.len() >= old_cs.witness@.len()
        &&& self.witness@.subrange(0, old_cs.witness@.len() as int) == old_cs.witness@
        &&& self.gates@.len() >= old_cs.gates@.len()
        &&& self.gates@.subrange(0, old_cs.gates@.len() as int) == old_cs.gates@
        &&& self.boolean_constraint_indices@ == old_cs.boolean_constraint_indices@
        &&& self.public_vars_constraint_indices@ == old_cs.public_vars_constraint_indices@
        &&& self.public_vars_witness_indices@ == old_cs.public_vars_witness_indices@
    }

    /// Constrains `var` to fit in `n_bits` bits: one variable per bit of its
    /// value, each bound to be a bit (`b * b = b`), summed with weights
    /// `2^j` into a running total that must end equal to `var`. Returns the
    /// bit variables, lowest first. Every gate but the last holds on the
    /// resulting witness; the last one holds exactly when the bits add up to
    /// the value of `var`.
    pub fn range_check(&mut self, var: VarIndex, n_bits: usize) -> (bits: Vec<VarIndex>)
        requires
            old(self).wf(),
            var < old(self).witness@.len(),
            n_bits <= 256,
            old(self).witness@.len() + 2 * n_bits < usize::MAX,
        ensures
            final(self).wf(),
            final(self).extends(old(self)),
            final(self).witness@.len() == old(self).witness@.len() + 2 * n_bits,
            final(self).gates@.len() == old(self).gates@.len() + 2 * n_bits + 1,
            bits@.len() == n_bits,
            forall|j: int|
                0 <= j < n_bits ==> #[trigger] bits@[j] == old(self).witness@.len() + 2 * j,
            forall|j: int|
                0 <= j < n_bits ==> {
                    let b = final(self).witness@[#[trigger] bits@[j] as int].val();
                    b == 0 || b == 1
                },
            old(self).rows_hold_from(old(self).gates@.len() as int) ==> forall|r: int|
                old(self).gates@.len() <= r < final(self).gates@.len() - 1
                    ==> #[trigger] final(self).row_residual(final(self).witness@, r, 0) == 0,
            final(self).row_residual(final(self).witness@, final(self).gates@.len() - 1, 0)
                == fsub(
                bit_sum(final(self).witness@, bits@, n_bits as nat),
                old(self).witness@[var as int].val(),
            ),
            is_range_check(
                final(self),
                var,
                n_bits as nat,
                old(self).gates@.len() as int,
                old(self).witness@.len() as int,
            ),
    {
        let bytes = self.witness[var].to_bytes();
        let zero = Fr::zero();
        let one = Fr::one();
        let two = Fr::from_u64(2);
        let mut acc_var: VarIndex = 0;
        let mut acc_val = Fr::zero();
        let mut pow = Fr::one();
        let mut bits: Vec<VarIndex> = Vec::new();
        let ghost old_cs = *old(self);
        let ghost old_n = old_cs.gates@.len() as int;
        proof {
            assert(self.witness@.subrange(0, old_cs.witness@.len() as int) =~= old_cs.witness@);
            assert(self.gates@.subrange(0, old_cs.gates@.len() as int) =~= old_cs.gates@);
        }
        let mut j: usize = 0;
        while j < n_bits
            invariant
                self.wf(),
                self.extends(&old_cs),
                old_cs == *old(self),
                old_n == old_cs.gates@.len(),
                var < old_cs.witness@.len(),
                n_bits <= 256,
                old_cs.witness@.len() + 2 * n_bits < usize::MAX,
                j <= n_bits,
                self.witness@.len() == old_cs.witness@.len() + 2 * j,
                self.gates@.len() == old_cs.gates@.len() + 2 * j,
                zero.val() == 0,
                one.val() == 1,
                two.val() == 2,
                pow.val() == fpow(2, j as nat),
                acc_var < self.witness@.len(),
                self.witness@[acc_var as int].val() == acc_val.val(),
                acc_val.val() == bit_sum(self.witness@, bits@, j as nat),
                bits@.len() == j,
                forall|t: int| 0 <= t < j ==> #[trigger] bits@[t] == old_cs.witness@.len() + 2 * t,
                forall|t: int|
                    0 <= t < j ==> {
                        let b = self.witness@[#[trigger] bits@[t] as int].val();
                        b == 0 || b == 1
                    },
                old_cs.rows_hold_from(old_n) ==> self.rows_hold_from(old_n),
                acc_var == rc_acc_var(old_cs.witness@.len() as int, j as int),
                forall|t: int|
                    0 <= t < j ==> #[trigger] rc_bit_row(
                        self,
                        old_n,
                        old_cs.witness@.len() as int,
                        t,
                    ),
                forall|t: int|
                    0 <= t < j ==> #[trigger] rc_acc_row(
                        self,
                        old_n,
                        old_cs.witness@.len() as int,
                        t,
                    ),
            decreases n_bits - j,
        {
            let byte = bytes[j / 8];
            let sh = (j % 8) as u8;
            let bit = (byte >> sh) & 1u8;
            assert(((byte >> sh) & 1u8) <= 1u8) by (bit_vector);
            let b_val = Fr::from_u64(bit as u64);
            let ghost s0 = *self;
            let b = self.new_variable(b_val);
            let ghost s1 = *self;
            self.insert_mul_gate(b, b, b);
            let ghost s2 = *self;
            let new_acc_val = acc_val.add(&pow.mul(&b_val));
            let new_acc = self.new_variable(new_acc_val);
            let ghost s3 = *self;
            let sels = [one, pow, zero, zero, zero, zero, zero, zero, zero, zero, zero, zero, one];
            self.insert_gate([acc_var, b, 0, 0, new_acc], sels);
            proof {
                assert(self.witness@.subrange(0, old_cs.witness@.len() as int)
                    =~= s0.witness@.subrange(0, old_cs.witness@.len() as int));
                assert(self.gates@.subrange(0, old_cs.gates@.len() as int)
                    =~= s0.gates@.subrange(0, old_cs.gates@.len() as int));
                assert(s1.witness@.subrange(0, s0.witness@.len() as int) =~= s0.witness@);
                assert(s1.gates@.subrange(0, s0.gates@.len() as int) =~= s0.gates@);
                assert(s2.gates@.subrange(0, s1.gates@.len() as int) =~= s1.gates@);
                assert(s2.witness@.subrange(0, s1.witness@.len() as int) =~= s1.witness@);
                assert(s3.witness@.subrange(0, s2.witness@.len() as int) =~= s2.witness@);
                assert(s3.gates@.subrange(0, s2.gates@.len() as int) =~= s2.gates@);
                assert(self.gates@.subrange(0, s3.gates@.len() as int) =~= s3.gates@);
                assert(self.witness@.subrange(0, s3.witness@.len() as int) =~= s3.witness@);
                lemma_extends_trans(&s2, &s1, &s0);
                lemma_extends_trans(&s3, &s2, &s0);
                lemma_extends_trans(self, &s3, &s0);
                lemma_extends_trans(self, &s2, &s1);
                lemma_extends_trans(self, &s3, &s2);
                lemma_extends_keeps(self, &s0, acc_var as int);
                lemma_extends_keeps(self, &s1, b as int);
                lemma_extends_keeps(self, &s0, 0);
                lemma_bit_sum_extend(self.witness@, s0.witness@, bits@, j as nat);
                let v0 = old_cs.witness@.len() as int;
                assert(rc_bit_row(&s2, old_n, v0, j as int));
                lemma_row_is_extend(self, &s2, old_n + 2 * j, wires5(b, b, 0, 0, b), mul_sels());
                assert(rc_bit_row(self, old_n, v0, j as int));
                let r2 = s3.gates@.len() as int;
                assert(self.gates@[r2].wires@ =~= wires5(acc_var, b, 0, 0, new_acc));
                assert forall|t: int| 0 <= t < 13 implies (#[trigger] self.gates@[r2].selectors[
                    t
                ]).val() == weighted_add_sels(fpow(2, j as nat))[t] by {
                    assert(self.gates@[r2].selectors@ == sels@);
                }
                assert(rc_acc_row(self, old_n, v0, j as int));
                assert forall|t: int| 0 <= t < j implies #[trigger] rc_bit_row(self, old_n, v0, t) by {
                    assert(rc_bit_row(&s0, old_n, v0, t));
                    let bt = (v0 + 2 * t) as usize;
                    lemma_row_is_extend(self, &s0, old_n + 2 * t, wires5(bt, bt, 0, 0, bt), mul_sels());
                }
                assert forall|t: int| 0 <= t < j implies #[trigger] rc_acc_row(self, old_n, v0, t) by {
                    assert(rc_acc_row(&s0, old_n, v0, t));
                    lemma_row_is_extend(
                        self,
                        &s0,
                        old_n + 2 * t + 1,
                        wires5(rc_acc_var(v0, t), (v0 + 2 * t) as usize, 0, 0, (v0 + 2 * t + 1) as usize),
                        weighted_add_sels(fpow(2, t as nat)),
                    );
                }
                let bv = b_val.val();
                assert(self.witness@[b as int].val() == bv);
                let nb = bits@.push(b);
                assert(bit_sum(self.witness@, nb, (j + 1) as nat) == fadd(
                    bit_sum(self.witness@, nb, j as nat),
                    fmul(fpow(2, j as nat), bv),
                ));
                assert(nb.subrange(0, j as int) =~= bits@);
                assert(bits@.subrange(0, j as int) =~= bits@);
                lemma_bit_sum_prefix(self.witness@, nb, bits@, j as nat);
                assert forall|t: int| 0 <= t < j implies {
                    let bb = self.witness@[#[trigger] bits@[t] as int].val();
                    bb == 0 || bb == 1
                } by {
                    lemma_extends_keeps(self, &s0, bits@[t] as int);
                }
                if old_cs.rows_hold_from(old_n) {
                    lemma_rows_hold_extend(&s1, &s0, old_n);
                    assert(s1.rows_hold_from(old_n));
                    let r1 = s1.gates@.len() as int;
                    assert(s2.witness@[b as int] == b_val);
                    assert(s2.row_residual(s2.witness@, r1, 0) == fsub(fadd(fmul(bv, bv), 0), bv));
                    assert(fsub(fadd(fmul(bv, bv), 0), bv) == 0) by {
                        lemma_small_mod(1, modulus() as nat);
                        lemma_small_mod(0, modulus() as nat);
                        assert(bv == 0 || bv == 1);
                        assert(fmul(bv, bv) == bv);
                    }
                    lemma_rows_hold_extend(&s2, &s1, old_n);
                    assert(s2.rows_hold_from(old_n));
                    lemma_rows_hold_extend(&s3, &s2, old_n);
                    assert(s3.rows_hold_from(old_n));
                    let r2 = s3.gates@.len() as int;
                    assert(self.row_wire_vals(self.witness@, r2) =~= seq![
                        acc_val.val(),
                        bv,
                        0,
                        0,
                        new_acc_val.val(),
                    ]);
                    assert(self.row_selector_vals(r2) =~= seq![
                        1int,
                        pow.val(),
                        0,
                        0,
                        0,
                        0,
                        0,
                        0,
                        0,
                        0,
                        0,
                        0,
                        1,
                    ]);
                    lemma_acc_gate_holds(acc_val.val(), pow.val(), bv);
                    lemma_rows_hold_extend(self, &s3, old_n);
                }
            }
            acc_var = new_acc;
            acc_val = new_acc_val;
            pow = pow.mul(&two);
            bits.push(b);
            j = j + 1;
        }
        let ghost before = *self;
        self.insert_add_gate(acc_var, 0, var);
        proof {
            let v0 = old_cs.witness@.len() as int;
            assert(self.gates@.subrange(0, before.gates@.len() as int) =~= before.gates@);
            assert(self.witness@.subrange(0, before.witness@.len() as int) =~= before.witness@);
            assert forall|t: int| 0 <= t < n_bits implies #[trigger] rc_bit_row(self, old_n, v0, t) by {
                assert(rc_bit_row(&before, old_n, v0, t));
                let bt = (v0 + 2 * t) as usize;
                lemma_row_is_extend(self, &before, old_n + 2 * t, wires5(bt, bt, 0, 0, bt), mul_sels());
            }
            assert forall|t: int| 0 <= t < n_bits implies #[trigger] rc_acc_row(self, old_n, v0, t) by {
                assert(rc_acc_row(&before, old_n, v0, t));
                lemma_row_is_extend(
                    self,
                    &before,
                    old_n + 2 * t + 1,
                    wires5(rc_acc_var(v0, t), (v0 + 2 * t) as usize, 0, 0, (v0 + 2 * t + 1) as usize),
                    weighted_add_sels(fpow(2, t as nat)),
                );
            }
            assert(self.gates@.subrange(0, old_cs.gates@.len() as int)
                =~= before.gates@.subrange(0, old_cs.gates@.len() as int));
            assert(self.gates@.subrange(0, before.gates@.len() as int) =~= before.gates@);
            assert(self.witness@ == before.witness@);
            lemma_extends_keeps(&before, &old_cs, var as int);
            if old_cs.rows_hold_from(old_n) {
                assert(before.rows_hold_from(old_n));
                assert forall|r: int|
                    old_n <= r < self.gates@.len() - 1 implies #[trigger] self.row_residual(
                    self.witness@,
                    r,
                    0,
                ) == 0 by {
                    assert(self.gates@[r] == before.gates@[r]);
                    assert(self.row_wire_vals(self.witness@, r) =~= before.row_wire_vals(
                        before.witness@,
                        r,
                    ));
                    assert(self.row_selector_vals(r) =~= before.row_selector_vals(r));
                    assert(before.row_residual(before.witness@, r, 0) == 0);
                }
            }
        }
        bits
    }
}

/// Extending is transitive.
pub proof fn lemma_extends_trans(c: &TurboCS, b: &TurboCS, a: &TurboCS)
    requires
        c.extends(b),
        b.extends(a),
    ensures
        c.extends(a),
{
    assert(c.witness@.subrange(0, a.witness@.len() as int) =~= b.witness@.subrange(
        0,
        a.witness@.len() as int,
    ));
    assert(c.gates@.subrange(0, a.gates@.len() as int) =~= b.gates@.subrange(
        0,
        a.gates@.len() as int,
    ));
}

/// An extension keeps the value of every variable that was there.
pub proof fn lemma_extends_keeps(c: &TurboCS, a: &TurboCS, v: int)
    requires
        c.extends(a),
        0 <= v < a.witness@.len(),
    ensures
        c.witness@[v] == a.witness@[v],
{
    assert(c.witness@.subrange(0, a.witness@.len() as int)[v] == c.witness@[v]);
}

/// A witness that the circuit accepts makes every row's gate function vanish:
/// the residual of each gate, on that row's wire values, selectors and public
/// input, is zero.
pub proof fn lemma_accepted_witness_zeroes_every_gate(
    cs: &TurboCS,
    wit: Seq<Fr>,
    online: Seq<Fr>,
    g: int,
)
    requires
        cs.is_satisfied_by(wit, online),
        0 <= g < cs.gates@.len(),
    ensures
        gate_residual(
            cs.row_wire_vals(wit, g),
            cs.row_selector_vals(g),
            public_input_at(cs.public_vars_constraint_indices@, online, g),
        ) == 0,
{
    assert(cs.row_residual(wit, g, public_input_at(cs.public_vars_constraint_indices@, online, g))
        == 0);
}

/// Changing one variable's value so that some gate's residual is no longer
/// zero makes the circuit reject the witness.
pub proof fn lemma_broken_gate_rejects(
    cs: &TurboCS,
    wit: Seq<Fr>,
    online: Seq<Fr>,
    v: int,
    value: Fr,
    g: int,
)
    requires
        0 <= v < wit.len(),
        0 <= g < cs.gates@.len(),
        cs.row_residual(
            wit.update(v, value),
            g,
            public_input_at(cs.public_vars_constraint_indices@, online, g),
        ) != 0,
    ensures
        !cs.is_satisfied_by(wit.update(v, value), online),
{
}

/// `sum_{i < k} q_i m_i` in the field.
pub open spec fn sel_dot(q: Seq<int>, m: Seq<int>, k: nat) -> int
    decreases k,
{
    if k == 0 {
        0
    } else {
        fadd(sel_dot(q, m, (k - 1) as nat), fmul(q[k - 1], m[k - 1]))
    }
}

proof fn lemma_add_cong(a: int, b: int, x: int, y: int)
    requires
        a == x % modulus(),
        b == y % modulus(),
    ensures
        fadd(a, b) == (x + y) % modulus(),
{
    lemma_add_mod_noop(x, y, modulus());
}

proof fn lemma_sub_cong(a: int, b: int, x: int, y: int)
    requires
        a == x % modulus(),
        b == y % modulus(),
    ensures
        fsub(a, b) == (x - y) % modulus(),
{
    lemma_sub_mod_noop(x, y, modulus());
}

proof fn lemma_mul_cong(a: int, b: int, x: int, y: int)
    requires
        a == x % modulus(),
        b == y % modulus(),
    ensures
        fmul(a, b) == (x * y) % modulus(),
{
    lemma_mul_mod_noop(x, y, modulus());
}

proof fn lemma_canonical(x: int)
    requires
        0 <= x < modulus(),
    ensures
        x == x % modulus(),
{
    lemma_small_mod(x as nat, modulus() as nat);
}

proof fn lemma_pow5(w: int)
    requires
        0 <= w < modulus(),
    ensures
        fpow(w, 5) == (w * w * w * w * w) % modulus(),
{
    reveal_with_fuel(fpow, 6);
    lemma_canonical(w);
    lemma_small_mod(1, modulus() as nat);
    lemma_mul_cong(1, w, 1, w);
    lemma_mul_cong(fpow(w, 1), w, 1 * w, w);
    lemma_mul_cong(fpow(w, 2), w, 1 * w * w, w);
    lemma_mul_cong(fpow(w, 3), w, 1 * w * w * w, w);
    lemma_mul_cong(fpow(w, 4), w, 1 * w * w * w * w, w);
    assert(1 * w * w * w * w * w == w * w * w * w * w);
}

/// A gate's function is its selectors combined with the multipliers that
/// `eval_selector_multipliers` gives, plus the public input: prover and
/// verifier weigh the selectors just as a gate does.
pub proof fn lemma_gate_from_multipliers(w: Seq<int>, q: Seq<int>, pi: int)
    requires
        w.len() == 5,
        q.len() == 13,
        forall|i: int| 0 <= i < 5 ==> 0 <= #[trigger] w[i] < modulus(),
        forall|i: int| 0 <= i < 13 ==> 0 <= #[trigger] q[i] < modulus(),
        0 <= pi < modulus(),
    ensures
        gate_residual(w, q, pi) == fadd(sel_dot(q, selector_multipliers(w), 13), pi),
{
    let (w0, w1, w2, w3, w4) = (w[0], w[1], w[2], w[3], w[4]);
    let m = selector_multipliers(w);
    assert forall|i: int| 0 <= i < 5 implies #[trigger] w[i] == w[i] % modulus() by {
        lemma_canonical(w[i]);
    }
    assert forall|i: int| 0 <= i < 13 implies #[trigger] q[i] == q[i] % modulus() by {
        lemma_canonical(q[i]);
    }
    lemma_canonical(pi);
    lemma_small_mod(1, modulus() as nat);
    lemma_small_mod(0, modulus() as nat);
    // Products of wires.
    lemma_mul_cong(w0, w1, w0, w1);
    lemma_mul_cong(w2, w3, w2, w3);
    lemma_mul_cong(fmul(w0, w1), w2, w0 * w1, w2);
    lemma_mul_cong(fmul(fmul(w0, w1), w2), w3, w0 * w1 * w2, w3);
    lemma_mul_cong(fmul(fmul(fmul(w0, w1), w2), w3), w4, w0 * w1 * w2 * w3, w4);
    let p5 = w0 * w1 * w2 * w3 * w4;
    lemma_pow5(w0);
    lemma_pow5(w1);
    lemma_pow5(w2);
    lemma_pow5(w3);
    let (h0, h1, h2, h3) = (w0 * w0 * w0 * w0 * w0, w1 * w1 * w1 * w1 * w1, w2 * w2 * w2 * w2 * w2, w3 * w3 * w3 * w3 * w3);
    // Terms of the residual itself.
    lemma_mul_cong(q[0], w0, q[0], w0);
    lemma_mul_cong(q[1], w1, q[1], w1);
    lemma_mul_cong(q[2], w2, q[2], w2);
    lemma_mul_cong(q[3], w3, q[3], w3);
    lemma_mul_cong(q[4], fmul(w0, w1), q[4], w0 * w1);
    lemma_mul_cong(q[5], fmul(w2, w3), q[5], w2 * w3);
    lemma_add_cong(q[6], pi, q[6], pi);
    lemma_mul_cong(q[7], w0, q[7], w0);
    lemma_mul_cong(fmul(q[7], w0), w1, q[7] * w0, w1);
    lemma_mul_cong(fmul(fmul(q[7], w0), w1), w2, q[7] * w0 * w1, w2);
    lemma_mul_cong(fmul(fmul(fmul(q[7], w0), w1), w2), w3, q[7] * w0 * w1 * w2, w3);
    lemma_mul_cong(fmul(fmul(fmul(fmul(q[7], w0), w1), w2), w3), w4, q[7] * w0 * w1 * w2 * w3, w4);
    lemma_mul_cong(q[8], fpow(w0, 5), q[8], h0);
    lemma_mul_cong(q[9], fpow(w1, 5), q[9], h1);
    lemma_mul_cong(q[10], fpow(w2, 5), q[10], h2);
    lemma_mul_cong(q[11], fpow(w3, 5), q[11], h3);
    lemma_mul_cong(q[12], w4, q[12], w4);
    let t0 = q[0] * w0;
    let t1 = q[1] * w1;
    let t2 = q[2] * w2;
    let t3 = q[3] * w3;
    let t4 = q[4] * (w0 * w1);
    let t5 = q[5] * (w2 * w3);
    let t7 = q[7] * w0 * w1 * w2 * w3 * w4;
    let t8 = q[8] * h0;
    let t9 = q[9] * h1;
    let t10 = q[10] * h2;
    let t11 = q[11] * h3;
    let t12 = q[12] * w4;
    lemma_add_cong(fmul(q[0], w0), fmul(q[1], w1), t0, t1);
    lemma_add_cong(fadd(fmul(q[0], w0), fmul(q[1], w1)), fmul(q[2], w2), t0 + t1, t2);
    let s1 = fadd(fadd(fadd(fmul(q[0], w0), fmul(q[1], w1)), fmul(q[2], w2)), fmul(q[3], w3));
    lemma_add_cong(fadd(fadd(fmul(q[0], w0), fmul(q[1], w1)), fmul(q[2], w2)), fmul(q[3], w3), t0 + t1 + t2, t3);
    lemma_add_cong(s1, fmul(q[4], fmul(w0, w1)), t0 + t1 + t2 + t3, t4);
    let s1b = fadd(s1, fmul(q[4], fmul(w0, w1)));
    lemma_add_cong(s1b, fmul(q[5], fmul(w2, w3)), t0 + t1 + t2 + t3 + t4, t5);
    let s1c = fadd(s1b, fmul(q[5], fmul(w2, w3)));
    lemma_add_cong(s1c, fadd(q[6], pi), t0 + t1 + t2 + t3 + t4 + t5, q[6] + pi);
    let s2 = fadd(s1c, fadd(q[6], pi));
    let e = fmul(fmul(fmul(fmul(fmul(q[7], w0), w1), w2), w3), w4);
    let a2 = t0 + t1 + t2 + t3 + t4 + t5 + (q[6] + pi);
    lemma_add_cong(s2, e, a2, t7);
    lemma_add_cong(fadd(s2, e), fmul(q[8], fpow(w0, 5)), a2 + t7, t8);
    lemma_add_cong(fadd(fadd(s2, e), fmul(q[8], fpow(w0, 5))), fmul(q[9], fpow(w1, 5)), a2 + t7 + t8, t9);
    let s3a = fadd(fadd(fadd(s2, e), fmul(q[8], fpow(w0, 5))), fmul(q[9], fpow(w1, 5)));
    lemma_add_cong(s3a, fmul(q[10], fpow(w2, 5)), a2 + t7 + t8 + t9, t10);
    let s3b = fadd(s3a, fmul(q[10], fpow(w2, 5)));
    lemma_add_cong(s3b, fmul(q[11], fpow(w3, 5)), a2 + t7 + t8 + t9 + t10, t11);
    let s3 = fadd(s3b, fmul(q[11], fpow(w3, 5)));
    let a3 = a2 + t7 + t8 + t9 + t10 + t11;
    lemma_sub_cong(s3, fmul(q[12], w4), a3, t12);
    assert(gate_residual(w, q, pi) == (a3 - t12) % modulus());
    // The combination with the multipliers.
    reveal_with_fuel(sel_dot, 14);
    lemma_mul_cong(q[6], 1, q[6], 1);
    lemma_mul_cong(q[7], m[7], q[7], p5);
    lemma_mul_cong(q[8], m[8], q[8], h0);
    lemma_mul_cong(q[9], m[9], q[9], h1);
    lemma_mul_cong(q[10], m[10], q[10], h2);
    lemma_mul_cong(q[11], m[11], q[11], h3);
    lemma_mul_cong(q[12], m[12], q[12], -w4);
    let u7 = q[7] * p5;
    let u12 = q[12] * (-w4);
    lemma_add_cong(0, fmul(q[0], m[0]), 0, t0);
    lemma_add_cong(sel_dot(q, m, 1), fmul(q[1], m[1]), t0, t1);
    lemma_add_cong(sel_dot(q, m, 2), fmul(q[2], m[2]), t0 + t1, t2);
    lemma_add_cong(sel_dot(q, m, 3), fmul(q[3], m[3]), t0 + t1 + t2, t3);
    lemma_add_cong(sel_dot(q, m, 4), fmul(q[4], m[4]), t0 + t1 + t2 + t3, t4);
    lemma_add_cong(sel_dot(q, m, 5), fmul(q[5], m[5]), t0 + t1 + t2 + t3 + t4, t5);
    let b5 = t0 + t1 + t2 + t3 + t4 + t5;
    lemma_add_cong(sel_dot(q, m, 6), fmul(q[6], m[6]), b5, q[6] * 1);
    lemma_add_cong(sel_dot(q, m, 7), fmul(q[7], m[7]), b5 + q[6] * 1, u7);
    lemma_add_cong(sel_dot(q, m, 8), fmul(q[8], m[8]), b5 + q[6] * 1 + u7, t8);
    lemma_add_cong(sel_dot(q, m, 9), fmul(q[9], m[9]), b5 + q[6] * 1 + u7 + t8, t9);
    lemma_add_cong(sel_dot(q, m, 10), fmul(q[10], m[10]), b5 + q[6] * 1 + u7 + t8 + t9, t10);
    lemma_add_cong(sel_dot(q, m, 11), fmul(q[11], m[11]), b5 + q[6] * 1 + u7 + t8 + t9 + t10, t11);
    let b11 = b5 + q[6] * 1 + u7 + t8 + t9 + t10 + t11;
    lemma_add_cong(sel_dot(q, m, 12), fmul(q[12], m[12]), b11, u12);
    lemma_add_cong(sel_dot(q, m, 13), pi, b11 + u12, pi);
    assert(u7 == t7) by (nonlinear_arith)
        requires
            u7 == q[7] * p5,
            p5 == w0 * w1 * w2 * w3 * w4,
            t7 == q[7] * w0 * w1 * w2 * w3 * w4,
    ;
    assert(u12 == -t12) by (nonlinear_arith)
        requires
            u12 == q[12] * (-w4),
            t12 == q[12] * w4,
    ;
    assert(b11 + u12 + pi == a3 - t12);
}

/// A gate `w0 - w2 + c - w4` vanishes on `a, b, a + c - b` when those are
/// canonical.
pub proof fn lemma_sub_gate_holds(a: int, b: int, c: int, res: int)
    requires
        0 <= a < modulus(),
        0 <= b < modulus(),
        0 <= c < modulus(),
        0 <= res < modulus(),
        res == a + c - b,
    ensures
        gate_residual(
            seq![a, 0, b, 0, res],
            seq![1int, 0, fneg(1), 0, 0, 0, c, 0, 0, 0, 0, 0, 1],
            0,
        ) == 0,
{
    lemma_canonical(a);
    lemma_canonical(b);
    lemma_canonical(c);
    lemma_small_mod(1, modulus() as nat);
    lemma_small_mod(0, modulus() as nat);
    let add3 = fmul(fneg(1), b);
    lemma_mul_cong(fneg(1), b, -1, b);
    lemma_add_cong(a, add3, a, -1 * b);
    let s1 = fadd(a, add3);
    lemma_add_cong(s1, c, a + -1 * b, c);
    assert(a + -1 * b + c - res == 0);
    lemma_canonical(res);
    lemma_sub_cong(fadd(s1, c), res, a + -1 * b + c, res);
}

/// A gate `w0 + w2 w3 - w4` vanishes on `prior, a, b, prior + a b` when
/// those stay below the modulus.
pub proof fn lemma_mul_gate_holds(prior: int, a: int, b: int, res: int)
    requires
        0 <= prior,
        0 <= a,
        0 <= b,
        0 <= a * b,
        res == prior + a * b,
        res < modulus(),
    ensures
        gate_residual(
            seq![prior, 0, a, b, res],
            seq![1int, 0, 0, 0, 0, 1, 0, 0, 0, 0, 0, 0, 1],
            0,
        ) == 0,
{
    lemma_canonical(prior);
    lemma_canonical(a * b);
    lemma_canonical(res);
    lemma_small_mod(0, modulus() as nat);
    assert(fmul(a, b) == a * b);
    lemma_add_cong(prior, a * b, prior, a * b);
    lemma_sub_cong(fadd(prior, fmul(a, b)), res, prior + a * b, res);
}

/// Rows that held keep holding in an extension: their gates and the values
/// of the variables they read are unchanged.
pub proof fn lemma_rows_hold_extend(c: &TurboCS, a: &TurboCS, from: int)
    requires
        c.extends(a),
        a.wf(),
        a.rows_hold_from(from),
        0 <= from,
    ensures
        forall|r: int|
            from <= r < a.gates@.len() ==> #[trigger] c.row_residual(c.witness@, r, 0) == 0,
{
    assert forall|r: int| from <= r < a.gates@.len() implies #[trigger] c.row_residual(
        c.witness@,
        r,
        0,
    ) == 0 by {
        assert(c.gates@[r] == a.gates@[r]) by {
            assert(c.gates@.subrange(0, a.gates@.len() as int)[r] == c.gates@[r]);
        }
        assert forall|w: int| 0 <= w < 5 implies c.witness@[c.gates@[r].wires[w] as int]
            == a.witness@[a.gates@[r].wires[w] as int] by {
            assert(a.gates@[r].wires[w] < a.witness@.len());
            lemma_extends_keeps(c, a, a.gates@[r].wires[w] as int);
        }
        assert(c.row_wire_vals(c.witness@, r) =~= a.row_wire_vals(a.witness@, r));
        assert(c.row_selector_vals(r) =~= a.row_selector_vals(r));
        assert(a.row_residual(a.witness@, r, 0) == 0);
    }
}

/// `sum_{j < k} 2^j * wit[bits[j]]` in the field.
pub open spec fn bit_sum(wit: Seq<Fr>, bits: Seq<usize>, k: nat) -> int
    decreases k,
{
    if k == 0 {
        0
    } else {
        fadd(
            bit_sum(wit, bits, (k - 1) as nat),
            fmul(fpow(2, (k - 1) as nat), wit[bits[k - 1] as int].val()),
        )
    }
}

/// The sum reads only the variables it names.
proof fn lemma_bit_sum_extend(w2: Seq<Fr>, w1: Seq<Fr>, bits: Seq<usize>, k: nat)
    requires
        w2.len() >= w1.len(),
        w2.subrange(0, w1.len() as int) == w1,
        k <= bits.len(),
        forall|t: int| 0 <= t < k ==> #[trigger] bits[t] < w1.len(),
    ensures
        bit_sum(w2, bits, k) == bit_sum(w1, bits, k),
    decreases k,
{
    if k > 0 {
        lemma_bit_sum_extend(w2, w1, bits, (k - 1) as nat);
        assert(w2.subrange(0, w1.len() as int)[bits[k - 1] as int] == w2[bits[k - 1] as int]);
    }
}

/// The sum reads only the first `k` bits.
proof fn lemma_bit_sum_prefix(wit: Seq<Fr>, long: Seq<usize>, short: Seq<usize>, k: nat)
    requires
        k <= short.len(),
        k <= long.len(),
        long.subrange(0, k as int) == short.subrange(0, k as int),
    ensures
        bit_sum(wit, long, k) == bit_sum(wit, short, k),
    decreases k,
{
    if k > 0 {
        assert(long.subrange(0, k - 1) =~= long.subrange(0, k as int).subrange(0, k - 1));
        assert(short.subrange(0, k - 1) =~= short.subrange(0, k as int).subrange(0, k - 1));
        assert(long.subrange(0, k as int)[k - 1] == long[k - 1]);
        assert(short.subrange(0, k as int)[k - 1] == short[k - 1]);
        lemma_bit_sum_prefix(wit, long, short, (k - 1) as nat);
    }
}

/// A gate `w0 + p w1 - w4` vanishes on `acc, b, acc + p b`.
pub proof fn lemma_acc_gate_holds(acc: int, p: int, b: int)
    requires
        0 <= acc < modulus(),
        0 <= p < modulus(),
        0 <= b < modulus(),
    ensures
        gate_residual(
            seq![acc, b, 0, 0, fadd(acc, fmul(p, b))],
            seq![1int, p, 0, 0, 0, 0, 0, 0, 0, 0, 0, 0, 1],
            0,
        ) == 0,
{
    lemma_small_mod(0, modulus() as nat);
}

/// The powers of two up to four are one, two and four.
proof fn lemma_power_of_two_upto_four(p: nat)
    requires
        is_power_of_two(p),
        p <= 4,
    ensures
        p == 1 || p == 2 || p == 4,
{
    reveal_with_fuel(is_power_of_two, 4);
}

/// A power of two from eight on is a multiple of eight.
proof fn lemma_power_of_two_mult_eight(p: nat)
    requires
        is_power_of_two(p),
        p >= 8,
    ensures
        p % 8 == 0,
    decreases p,
{
    reveal_with_fuel(is_power_of_two, 4);
    if p > 8 {
        if p / 2 >= 8 {
            lemma_power_of_two_mult_eight(p / 2);
        }
    }
}

/// `l - 1` is four times an odd number, so no power of two from eight on
/// divides it.
proof fn lemma_no_domain_above_four(p: nat)
    requires
        is_power_of_two(p),
        p > 4,
    ensures
        (modulus() - 1) % (p as int) != 0,
{
    reveal_with_fuel(is_power_of_two, 4);
    if p < 8 {
        assert(p == 6 || p == 5 || p == 7);
        assert(false);
    }
    lemma_power_of_two_mult_eight(p);
    if (modulus() - 1) % (p as int) == 0 {
        vstd::arithmetic::div_mod::lemma_fundamental_div_mod(modulus() - 1, p as int);
        vstd::arithmetic::div_mod::lemma_fundamental_div_mod(p as int, 8);
        let k = (modulus() - 1) / (p as int);
        let h = (p as int) / 8;
        assert(modulus() - 1 == 8 * (h * k)) by (nonlinear_arith)
            requires
                modulus() - 1 == (p as int) * k,
                p as int == 8 * h,
        ;
        vstd::arithmetic::div_mod::lemma_mod_multiples_basic(h * k, 8);
        assert((modulus() - 1) % 8 == 4);
    }
}

/// The variables of a row, wire by wire.
pub open spec fn wires5(a: usize, b: usize, c: usize, d: usize, e: usize) -> Seq<usize> {
    seq![a, b, c, d, e]
}

/// Selectors `q1 = 1, q3 = -1, qc = c, qo = 1`: a gate `w0 - w2 + c = w4`.
pub open spec fn sub_sels(c: int) -> Seq<int> {
    seq![1int, 0, fneg(1), 0, 0, 0, c, 0, 0, 0, 0, 0, 1]
}

/// Selectors `q1 = 1, qm2 = 1, qo = 1`: a gate `w0 + w2 w3 = w4`.
pub open spec fn mul_acc_sels() -> Seq<int> {
    seq![1int, 0, 0, 0, 0, 1, 0, 0, 0, 0, 0, 0, 1]
}

/// Selectors `q1 = 1, qc = -c`: a gate `w0 = c`.
pub open spec fn const_sels(c: int) -> Seq<int> {
    seq![1int, 0, 0, 0, 0, 0, fneg(c), 0, 0, 0, 0, 0, 0]
}

/// Selectors `qm1 = 1, qo = 1`: a gate `w0 w1 = w4`.
pub open spec fn mul_sels() -> Seq<int> {
    seq![0int, 0, 0, 0, 1, 0, 0, 0, 0, 0, 0, 0, 1]
}

/// Selectors `q1 = 1, q2 = p, qo = 1`: a gate `w0 + p w1 = w4`.
pub open spec fn weighted_add_sels(p: int) -> Seq<int> {
    seq![1int, p, 0, 0, 0, 0, 0, 0, 0, 0, 0, 0, 1]
}

/// Selectors `q1 = q2 = 1, qo = 1`: a gate `w0 + w1 = w4`.
pub open spec fn add_sels() -> Seq<int> {
    seq![1int, 1, 0, 0, 0, 0, 0, 0, 0, 0, 0, 0, 1]
}

impl TurboCS {
    /// Row `r` carries the variables `wires` and the selector values `sels`.
    pub open spec fn row_is(&self, r: int, wires: Seq<usize>, sels: Seq<int>) -> bool {
        &&& 0 <= r < self.gates@.len()
        &&& self.gates@[r].wires@ == wires
        &&& forall|s: int| 0 <= s < 13 ==> (#[trigger] self.gates@[r].selectors[s]).val() == sels[s]
    }
}

/// The residual of a row, from what the row carries.
pub proof fn lemma_row_residual_of(
    cs: &TurboCS,
    r: int,
    wires: Seq<usize>,
    sels: Seq<int>,
    wit: Seq<Fr>,
    pi: int,
)
    requires
        cs.row_is(r, wires, sels),
        wires.len() == 5,
        sels.len() == 13,
    ensures
        cs.row_residual(wit, r, pi) == gate_residual(
            Seq::new(5, |w: int| wit[wires[w] as int].val()),
            sels,
            pi,
        ),
{
    assert(cs.row_wire_vals(wit, r) =~= Seq::new(5, |w: int| wit[wires[w] as int].val()));
    assert(cs.row_selector_vals(r) =~= sels);
}

/// An extension keeps what every old row carries.
pub proof fn lemma_row_is_extend(c: &TurboCS, a: &TurboCS, r: int, wires: Seq<usize>, sels: Seq<int>)
    requires
        c.extends(a),
        a.row_is(r, wires, sels),
    ensures
        c.row_is(r, wires, sels),
{
    assert(c.gates@.subrange(0, a.gates@.len() as int)[r] == c.gates@[r]);
}

/// The subtraction gate, on any values: `w0 - w2 + c + pi - w4`.
pub proof fn lemma_sub_gate_form(w: Seq<int>, c: int, pi: int)
    requires
        w.len() == 5,
        forall|j: int| 0 <= j < 5 ==> 0 <= #[trigger] w[j] < modulus(),
        0 <= c < modulus(),
        0 <= pi < modulus(),
    ensures
        gate_residual(w, sub_sels(c), pi) == fsub(fadd(fadd(w[0], fneg(w[2])), fadd(c, pi)), w[4]),
{
    let q = sub_sels(c);
    lemma_canonical(w[2]);
    lemma_small_mod(1, modulus() as nat);
    lemma_mul_cong(fneg(1), w[2], -1, w[2]);
    assert(fmul(fneg(1), w[2]) == fneg(w[2]));
    assert(q[0] == 1 && q[1] == 0 && q[3] == 0 && q[4] == 0 && q[5] == 0 && q[7] == 0);
    assert(q[8] == 0 && q[9] == 0 && q[10] == 0 && q[11] == 0 && q[12] == 1 && q[6] == c);
    assert(q[2] == fneg(1));
}

/// The constant gate, on any values: `w0 - c + pi`.
pub proof fn lemma_const_gate_form(w: Seq<int>, c: int, pi: int)
    requires
        w.len() == 5,
        forall|j: int| 0 <= j < 5 ==> 0 <= #[trigger] w[j] < modulus(),
        0 <= pi < modulus(),
    ensures
        gate_residual(w, const_sels(c), pi) == fadd(w[0], fadd(fneg(c), pi)),
{
    lemma_small_mod(0, modulus() as nat);
}

/// Bit `j` of a range check whose rows start at `g0` and whose variables
/// start at `v0`: variable `v0 + 2 j` is bound by `b * b = b`.
pub open spec fn rc_bit_row(cs: &TurboCS, g0: int, v0: int, j: int) -> bool {
    let b = (v0 + 2 * j) as usize;
    cs.row_is(g0 + 2 * j, wires5(b, b, 0, 0, b), mul_sels())
}

/// The running total before bit `j`: the zero variable, then the variable
/// that the previous step added.
pub open spec fn rc_acc_var(v0: int, j: int) -> usize {
    if j == 0 {
        0
    } else {
        (v0 + 2 * j - 1) as usize
    }
}

/// Step `j` of a range check: `total_j + 2^j b_j = total_{j + 1}`.
pub open spec fn rc_acc_row(cs: &TurboCS, g0: int, v0: int, j: int) -> bool {
    cs.row_is(
        g0 + 2 * j + 1,
        wires5(rc_acc_var(v0, j), (v0 + 2 * j) as usize, 0, 0, (v0 + 2 * j + 1) as usize),
        weighted_add_sels(fpow(2, j as nat)),
    )
}

/// The `2 n + 1` rows of a range check of `var` on `n` bits, from row `g0`,
/// with its variables from `v0`: each bit bound to be a bit, the bits summed
/// with weights `2^j`, and the sum equal to `var`.
pub open spec fn is_range_check(cs: &TurboCS, var: usize, n: nat, g0: int, v0: int) -> bool {
    &&& forall|j: int| 0 <= j < n ==> #[trigger] rc_bit_row(cs, g0, v0, j)
    &&& forall|j: int| 0 <= j < n ==> #[trigger] rc_acc_row(cs, g0, v0, j)
    &&& cs.row_is(g0 + 2 * n, wires5(rc_acc_var(v0, n as int), 0, 0, 0, var), add_sels())
}

/// A range check stays in place in an extension.
pub proof fn lemma_range_check_extend(c: &TurboCS, a: &TurboCS, var: usize, n: nat, g0: int, v0: int)
    requires
        c.extends(a),
        is_range_check(a, var, n, g0, v0),
    ensures
        is_range_check(c, var, n, g0, v0),
{
    assert forall|j: int| 0 <= j < n implies #[trigger] rc_bit_row(c, g0, v0, j) by {
        assert(rc_bit_row(a, g0, v0, j));
        let b = (v0 + 2 * j) as usize;
        lemma_row_is_extend(c, a, g0 + 2 * j, wires5(b, b, 0, 0, b), mul_sels());
    }
    assert forall|j: int| 0 <= j < n implies #[trigger] rc_acc_row(c, g0, v0, j) by {
        assert(rc_acc_row(a, g0, v0, j));
        lemma_row_is_extend(
            c,
            a,
            g0 + 2 * j + 1,
            wires5(rc_acc_var(v0, j), (v0 + 2 * j) as usize, 0, 0, (v0 + 2 * j + 1) as usize),
            weighted_add_sels(fpow(2, j as nat)),
        );
    }
    lemma_row_is_extend(c, a, g0 + 2 * n, wires5(rc_acc_var(v0, n as int), 0, 0, 0, var), add_sels());
}

} // verus!
