//! Non-native field elements: a value of the scalar field held as six limbs
//! of 43 bits (the top one narrower), small enough that limb arithmetic
//! never wraps in the circuit's own field.
use crate::cs::{
    lemma_extends_keeps, lemma_extends_trans, lemma_mul_gate_holds, lemma_rows_hold_extend,
    lemma_row_is_extend, lemma_row_residual_of, lemma_sub_gate_form, lemma_sub_gate_holds,
    sub_sels, wires5, const_sels, lemma_const_gate_form, mul_acc_sels,
    is_range_check, lemma_range_check_extend, TurboCS, VarIndex,
};
use crate::field::{fadd, fmul, fneg, fsub, lemma_fadd_fneg};
use crate::field::{group_field, le_val, lemma_pow256_mono, modulus, pow256, Fr};
use vstd::arithmetic::div_mod::lemma_fundamental_div_mod;
use vstd::prelude::*;

verus! {

broadcast use group_field;

/// Limbs of a non-native value.
pub const NUM_OF_LIMBS: usize = 6;

/// Bits in each limb but the top one.
pub const BIT_PER_LIMB: usize = 43;

/// Bits in the top limb of a reduced value.
pub const BIT_IN_TOP_LIMB: usize = 38;

/// Limbs of a product of two non-native values.
pub const NUM_OF_LIMBS_MUL: usize = 11;

/// `2^43`, the weight between two limbs.
pub open spec fn limb_base() -> int {
    8796093022208
}

/// The padding `128 l` that subtraction adds, limb by limb; each of its limbs
/// is at least `2^43`, so no limb of the difference goes negative.
pub open spec fn sub_pad() -> Seq<int> {
    seq![14493281810048, 10777775908400, 10711442736622, 8796093022212, 17592186044415, 17592186044414]
}

/// `sum_i l[i] 2^{43 i}`.
pub open spec fn recombine(l: Seq<int>) -> int
    decreases l.len(),
{
    if l.len() == 0 {
        0
    } else {
        l[0] + limb_base() * recombine(l.drop_first())
    }
}

/// The limbs as integers.
pub open spec fn limb_vals(l: Seq<u128>) -> Seq<int> {
    l.map_values(|x: u128| x as int)
}

/// How far a value may be from its reduced form.
#[derive(Clone, Copy, Debug, PartialEq, Eq, Structural)]
pub enum SimReducibility {
    /// The value is below the modulus.
    StrictlyNotReducible,
    /// The value is below twice the modulus.
    AtMostReducibleByOne,
}

/// A non-native value as six limbs.
#[derive(Clone, Copy, Debug)]
pub struct SimFr {
    pub limbs: [u128; 6],
    pub num_of_additions_over_normal_form: SimReducibility,
}

/// The eleven limbs of a product, before any reduction.
#[derive(Clone, Copy, Debug)]
pub struct SimFrMul {
    pub limbs: [u128; 11],
}

/// `sum_{left <= j < hi} a[j] * b[i - j]`.
pub open spec fn conv_sum(a: Seq<int>, b: Seq<int>, i: int, left: int, hi: int) -> int
    decreases hi - left,
{
    if hi <= left {
        0
    } else {
        conv_sum(a, b, i, left, hi - 1) + a[hi - 1] * b[i - (hi - 1)]
    }
}

/// The smallest left index that limb `i` of a product reads.
pub open spec fn smallest_left(i: int) -> int {
    if i + 1 > 6 {
        i + 1 - 6
    } else {
        0
    }
}

/// The largest left index that limb `i` of a product reads.
pub open spec fn largest_left(i: int) -> int {
    if i < 5 {
        i
    } else {
        5
    }
}

/// Limb `i` of the schoolbook product of `a` and `b`.
pub open spec fn conv(a: Seq<int>, b: Seq<int>, i: int) -> int {
    conv_sum(a, b, i, smallest_left(i), largest_left(i) + 1)
}

/// Six limbs stand for `sum_i l[i] 2^{43 i}`, written out.
pub proof fn lemma_recombine6(l: Seq<int>)
    requires
        l.len() == 6,
    ensures
        recombine(l) == l[0] + 8796093022208 * l[1] + 77371252455336267181195264 * l[2]
            + 680564733841876926926749214863536422912 * l[3]
            + 5986310706507378352962293074805895248510699696029696 * l[4]
            + 52656145834278593348959013841835216159447547700274555627155488768 * l[5],
{
    let l1 = l.drop_first();
    let l2 = l1.drop_first();
    let l3 = l2.drop_first();
    let l4 = l3.drop_first();
    let l5 = l4.drop_first();
    let l6 = l5.drop_first();
    assert(recombine(l6) == 0);
    assert(recombine(l5) == l[5]);
    assert(recombine(l4) == l[4] + limb_base() * l[5]);
    assert(recombine(l3) == l[3] + limb_base() * recombine(l4));
    assert(recombine(l2) == l[2] + limb_base() * recombine(l3));
    assert(recombine(l1) == l[1] + limb_base() * recombine(l2));
    assert(recombine(l) == l[0] + limb_base() * recombine(l1));
}

/// The integer that `bytes[0..16]`, or `bytes[16..32]`, encodes.
proof fn lemma_le_val_split(s: Seq<u8>, k: nat)
    requires
        k <= s.len(),
    ensures
        le_val(s) == le_val(s.subrange(0, k as int)) + pow256(k) * le_val(
            s.subrange(k as int, s.len() as int),
        ),
    decreases k,
{
    if k == 0 {
        assert(s.subrange(0, s.len() as int) =~= s);
        assert(le_val(s.subrange(0, 0)) == 0);
        assert(pow256(0) == 1);
        assert(pow256(k) * le_val(s.subrange(k as int, s.len() as int)) == le_val(s));
    } else {
        let t = s.subrange(1, s.len() as int);
        lemma_le_val_split(t, (k - 1) as nat);
        let sk = s.subrange(0, k as int);
        assert(sk.subrange(1, sk.len() as int) =~= t.subrange(0, k - 1));
        assert(t.subrange(k - 1, t.len() as int) =~= s.subrange(k as int, s.len() as int));
        let a = le_val(t.subrange(0, k - 1));
        let b = le_val(s.subrange(k as int, s.len() as int));
        let p = pow256((k - 1) as nat);
        assert(le_val(s) == s[0] + 256 * le_val(t));
        assert(le_val(t) == a + p * b);
        assert(le_val(sk) == s[0] + 256 * a);
        assert(pow256(k) == 256 * p);
        assert(256 * (a + p * b) == 256 * a + (256 * p) * b) by (nonlinear_arith);
        assert(pow256(k) * b == (256 * p) * b);
    }
}

/// The integer that a 16-byte stretch of `bytes` encodes, read from the top.
fn le_u128(bytes: &[u8; 32], start: usize) -> (r: u128)
    requires
        start + 16 <= 32,
    ensures
        r as int == le_val(bytes@.subrange(start as int, start + 16)),
{
    proof {
        reveal_with_fuel(pow256, 17);
    }
    let mut r: u128 = 0;
    let mut i: usize = 16;
    while i > 0
        invariant
            start + 16 <= 32,
            i <= 16,
            r as int == le_val(bytes@.subrange(start + i, start + 16)),
            r < pow256((16 - i) as nat),
            pow256(16) == 0x1_0000_0000_0000_0000_0000_0000_0000_0000,
        decreases i,
    {
        let ghost s = bytes@.subrange(start + i - 1, start + 16);
        assert(s.subrange(1, s.len() as int) =~= bytes@.subrange(start + i, start + 16));
        assert(r * 256 + 255 < pow256((16 - i + 1) as nat)) by {
            assert(pow256((16 - i + 1) as nat) == 256 * pow256((16 - i) as nat));
        }
        assert(pow256((16 - i + 1) as nat) <= pow256(16)) by {
            lemma_pow256_mono((16 - i + 1) as nat, 16);
        }
        r = r * 256 + bytes[start + i - 1] as u128;
        i = i - 1;
    }
    r
}

impl SimFr {
    /// The integer that the limbs stand for.
    pub open spec fn value(&self) -> int {
        recombine(limb_vals(self.limbs@))
    }

    /// Every limb below `2^43`, the top one below `2^41`: the form that a
    /// 256-bit value has when split.
    pub open spec fn is_split_form(&self) -> bool {
        &&& forall|i: int| 0 <= i < 5 ==> (#[trigger] self.limbs@[i]) < limb_base()
        &&& self.limbs@[5] < 0x200_0000_0000
    }

    /// Zero.
    pub fn zero() -> (r: SimFr)
        ensures
            r.value() == 0,
            r.is_split_form(),
            r.num_of_additions_over_normal_form == SimReducibility::StrictlyNotReducible,
    {
        let r = SimFr {
            limbs: [0, 0, 0, 0, 0, 0],
            num_of_additions_over_normal_form: SimReducibility::StrictlyNotReducible,
        };
        proof {
            reveal_with_fuel(recombine, 7);
            assert(limb_vals(r.limbs@) =~= seq![0int, 0, 0, 0, 0, 0]);
        }
        r
    }

    /// Splits the 256-bit little-endian integer `bytes` into limbs.
    pub fn from_le_bytes(bytes: &[u8; 32]) -> (r: SimFr)
        ensures
            r.value() == le_val(bytes@),
            r.is_split_form(),
            r.num_of_additions_over_normal_form == SimReducibility::StrictlyNotReducible,
    {
        let lo = le_u128(bytes, 0);
        let hi = le_u128(bytes, 16);
        let b: u128 = 8796093022208;
        let l0 = lo % b;
        let t1 = lo / b;
        let l1 = t1 % b;
        let t2 = t1 / b;
        let l2 = t2 + (hi % 2) * 0x400_0000_0000;
        let h1 = hi / 2;
        let l3 = h1 % b;
        let h2 = h1 / b;
        let l4 = h2 % b;
        let l5 = h2 / b;
        let r = SimFr {
            limbs: [l0, l1, l2, l3, l4, l5],
            num_of_additions_over_normal_form: SimReducibility::StrictlyNotReducible,
        };
        proof {
            lemma_fundamental_div_mod(lo as int, b as int);
            lemma_fundamental_div_mod(t1 as int, b as int);
            lemma_fundamental_div_mod(hi as int, 2);
            lemma_fundamental_div_mod(h1 as int, b as int);
            lemma_fundamental_div_mod(h2 as int, b as int);
            reveal_with_fuel(pow256, 17);
            lemma_le_val_split(bytes@, 16);
            assert(lo as int == le_val(bytes@.subrange(0, 16)));
            assert(hi as int == le_val(bytes@.subrange(16, 32)));
            assert(limb_vals(r.limbs@) =~= seq![
                l0 as int,
                l1 as int,
                l2 as int,
                l3 as int,
                l4 as int,
                l5 as int,
            ]);
            lemma_recombine6(limb_vals(r.limbs@));
            assert(le_val(bytes@) == lo + 0x1_0000_0000_0000_0000_0000_0000_0000_0000 * hi);
            assert(t2 < 0x400_0000_0000) by {
                vstd::arithmetic::div_mod::lemma_multiply_divide_lt(
                    lo as int,
                    b as int * b as int,
                    0x400_0000_0000,
                );
                vstd::arithmetic::div_mod::lemma_div_denominator(lo as int, b as int, b as int);
            }
            assert(l5 < 0x200_0000_0000) by {
                vstd::arithmetic::div_mod::lemma_div_denominator(h1 as int, b as int, b as int);
                vstd::arithmetic::div_mod::lemma_multiply_divide_lt(
                    h1 as int,
                    b as int * b as int,
                    0x200_0000_0000,
                );
            }
        }
        r
    }

    /// The field element that the limbs stand for, reduced.
    pub fn to_fr(&self) -> (r: Fr)
        ensures
            r.val() == self.value() % modulus(),
    {
        let base = Fr::from_u64(8796093022208);
        let mut acc = Fr::zero();
        let mut i: usize = 6;
        proof {
            assert(limb_vals(self.limbs@).subrange(6, 6).len() == 0);
            assert(recombine(limb_vals(self.limbs@).subrange(6, 6)) == 0);
            vstd::arithmetic::div_mod::lemma_small_mod(0, modulus() as nat);
        }
        while i > 0
            invariant
                i <= 6,
                base.val() == limb_base(),
                acc.val() == recombine(limb_vals(self.limbs@).subrange(i as int, 6)) % modulus(),
            decreases i,
        {
            let ghost l = limb_vals(self.limbs@);
            let ghost rest = l.subrange(i as int, 6);
            let ghost s = l.subrange(i - 1, 6);
            assert(s.drop_first() =~= rest);
            let limb = Fr::from_u128(self.limbs[i - 1]);
            acc = acc.mul(&base).add(&limb);
            proof {
                let m = modulus();
                let x = recombine(rest);
                vstd::arithmetic::div_mod::lemma_mul_mod_noop_left(x, limb_base(), m);
                vstd::arithmetic::div_mod::lemma_add_mod_noop(
                    x * limb_base(),
                    l[i - 1],
                    m,
                );
                vstd::arithmetic::div_mod::lemma_small_mod(l[i - 1] as nat, m as nat);
                vstd::arithmetic::div_mod::lemma_mod_twice(x * limb_base(), m);
                assert(x * limb_base() == limb_base() * x);
            }
            i = i - 1;
        }
        proof {
            assert(limb_vals(self.limbs@).subrange(0, 6) =~= limb_vals(self.limbs@));
        }
        acc
    }
}

/// The limbs of `a - b` padded by `128 l`.
pub open spec fn sub_limbs(a: Seq<int>, b: Seq<int>) -> Seq<int> {
    Seq::new(6, |i: int| a[i] + sub_pad()[i] - b[i])
}

/// The limbs of the schoolbook product of `a` and `b`.
pub open spec fn mul_limbs(a: Seq<int>, b: Seq<int>) -> Seq<int> {
    Seq::new(11, |i: int| conv(a, b, i))
}

/// The padding stands for `128 l`.
proof fn lemma_sub_pad_value()
    ensures
        recombine(sub_pad()) == 128 * modulus(),
{
    lemma_recombine6(sub_pad());
}

/// Limbs below `2^60` each.
pub open spec fn limbs_below_2_60(l: Seq<u128>) -> bool {
    forall|i: int| 0 <= i < l.len() ==> (#[trigger] l[i]) < 0x1000_0000_0000_0000
}

/// Limbs no larger than the padding, limb by limb.
pub open spec fn limbs_within_pad(l: Seq<u128>) -> bool {
    forall|i: int| 0 <= i < 6 ==> (#[trigger] l[i]) as int <= sub_pad()[i]
}

/// `sum_{left <= j < hi} a[j] b[i - j]` in `u128`, for limbs below `2^60`.
fn conv_exec(a: &[u128; 6], b: &[u128; 6], i: usize, left: usize, hi: usize) -> (r: u128)
    requires
        limbs_below_2_60(a@),
        limbs_below_2_60(b@),
        left <= hi <= 6,
        hi <= i + 1,
        i < left + 6,
    ensures
        r as int == conv_sum(limb_vals(a@), limb_vals(b@), i as int, left as int, hi as int),
{
    let mut acc: u128 = 0;
    let mut j: usize = left;
    while j < hi
        invariant
            limbs_below_2_60(a@),
            limbs_below_2_60(b@),
            left <= j <= hi <= 6,
            hi <= i + 1,
            i < left + 6,
            acc as int == conv_sum(limb_vals(a@), limb_vals(b@), i as int, left as int, j as int),
            acc <= (j - left) * 1329227995784915872903807060280344576,
        decreases hi - j,
    {
        let x = a[j];
        let y = b[i - j];
        assert(x * y <= x * 0x1000_0000_0000_0000) by (nonlinear_arith)
            requires
                y < 0x1000_0000_0000_0000,
        ;
        assert(x * 0x1000_0000_0000_0000 <= 0x1000_0000_0000_0000 * 0x1000_0000_0000_0000) by (nonlinear_arith)
            requires
                x < 0x1000_0000_0000_0000,
        ;
        assert(x * y < 1329227995784915872903807060280344576);
        acc = acc + x * y;
        j = j + 1;
    }
    acc
}

impl SimFr {
    /// `self - other` as limbs, padded by `128 l` so that no limb goes
    /// negative; the value is `self - other` modulo `l`, with no reduction.
    pub fn sub(&self, other: &SimFr) -> (r: SimFr)
        requires
            limbs_within_pad(other.limbs@),
            limbs_below_2_60(self.limbs@),
        ensures
            limb_vals(r.limbs@) == sub_limbs(limb_vals(self.limbs@), limb_vals(other.limbs@)),
            r.value() == self.value() + 128 * modulus() - other.value(),
            r.value() % modulus() == (self.value() - other.value()) % modulus(),
            r.num_of_additions_over_normal_form == SimReducibility::AtMostReducibleByOne,
    {
        let pad: [u128; 6] = [
            14493281810048,
            10777775908400,
            10711442736622,
            8796093022212,
            17592186044415,
            17592186044414,
        ];
        assert(limb_vals(pad@) =~= sub_pad());
        let mut limbs: [u128; 6] = [0, 0, 0, 0, 0, 0];
        let mut i: usize = 0;
        while i < 6
            invariant
                limbs_within_pad(other.limbs@),
                limbs_below_2_60(self.limbs@),
                limb_vals(pad@) == sub_pad(),
                i <= 6,
                limbs@.len() == 6,
                forall|j: int|
                    0 <= j < i ==> (#[trigger] limbs@[j]) as int == self.limbs@[j] + sub_pad()[j]
                        - other.limbs@[j],
            decreases 6 - i,
        {
            assert(limb_vals(pad@)[i as int] == pad@[i as int] as int);
            limbs[i] = self.limbs[i] + pad[i] - other.limbs[i];
            i = i + 1;
        }
        let r = SimFr {
            limbs,
            num_of_additions_over_normal_form: SimReducibility::AtMostReducibleByOne,
        };
        proof {
            let a = limb_vals(self.limbs@);
            let b = limb_vals(other.limbs@);
            assert(limb_vals(r.limbs@) =~= sub_limbs(a, b));
            lemma_recombine6(a);
            lemma_recombine6(b);
            lemma_recombine6(sub_limbs(a, b));
            lemma_sub_pad_value();
            lemma_recombine6(sub_pad());
            vstd::arithmetic::div_mod::lemma_mod_multiples_vanish(
                128,
                self.value() - other.value(),
                modulus(),
            );
        }
        r
    }

    /// The schoolbook product of the limbs: limb `i` sums `self[l] *
    /// other[i - l]` over `l` from `max(6, i + 1) - 6` to `min(i, 5)`.
    pub fn mul(&self, other: &SimFr) -> (r: SimFrMul)
        requires
            limbs_below_2_60(self.limbs@),
            limbs_below_2_60(other.limbs@),
        ensures
            limb_vals(r.limbs@) == mul_limbs(limb_vals(self.limbs@), limb_vals(other.limbs@)),
    {
        let mut limbs: [u128; 11] = [0, 0, 0, 0, 0, 0, 0, 0, 0, 0, 0];
        let mut i: usize = 0;
        while i < 11
            invariant
                limbs_below_2_60(self.limbs@),
                limbs_below_2_60(other.limbs@),
                i <= 11,
                limbs@.len() == 11,
                forall|j: int|
                    0 <= j < i ==> (#[trigger] limbs@[j]) as int == conv(
                        limb_vals(self.limbs@),
                        limb_vals(other.limbs@),
                        j,
                    ),
            decreases 11 - i,
        {
            let smallest = if i + 1 > 6 {
                i + 1 - 6
            } else {
                0
            };
            let largest = if i < 5 {
                i
            } else {
                5
            };
            let v = conv_exec(&self.limbs, &other.limbs, i, smallest, largest + 1);
            limbs[i] = v;
            i = i + 1;
        }
        let r = SimFrMul { limbs };
        assert(limb_vals(r.limbs@) =~= mul_limbs(limb_vals(self.limbs@), limb_vals(other.limbs@)));
        r
    }
}

/// The number of product gates that limbs `0..i` of a product take.
pub open spec fn mul_gates_before(i: nat) -> nat
    decreases i,
{
    if i == 0 {
        0
    } else {
        mul_gates_before((i - 1) as nat) + (largest_left(i - 1) + 1 - smallest_left(i - 1)) as nat
    }
}

/// At most six gates per limb.
proof fn lemma_mul_gates_bound(i: nat)
    requires
        i <= 11,
    ensures
        mul_gates_before(i) <= 6 * i,
    decreases i,
{
    if i > 0 {
        lemma_mul_gates_bound((i - 1) as nat);
    }
}

/// The row, counted from the first one that a product adds, of the cross
/// product `l` of limb `i`.
pub open spec fn mul_row(i: int, l: int) -> int {
    mul_gates_before(i as nat) + (l - smallest_left(i))
}

/// Row `mul_row(i, l)` of a product added at row `n0` with variables from
/// `v0` on: `prior + self[l] * other[i - l] = out`, where `out` is the row's
/// own new variable and `prior` is the previous row's (the zero variable for
/// the first cross product of a limb).
pub open spec fn is_mul_row(
    cs: &TurboCS,
    n0: int,
    v0: int,
    sv: Seq<VarIndex>,
    ov: Seq<VarIndex>,
    i: int,
    l: int,
) -> bool {
    let k = mul_row(i, l);
    let prior = if l == smallest_left(i) {
        0usize
    } else {
        (v0 + k - 1) as usize
    };
    cs.row_is(n0 + k, wires5(prior, 0, sv[l], ov[i - l], (v0 + k) as usize), mul_acc_sels())
}

/// The bits that `alloc_witness` range-checks limb `i` to.
pub open spec fn witness_limb_bits(i: int) -> nat {
    if i == 5 {
        38
    } else {
        43
    }
}

/// Variables, and rows, that `alloc_witness` adds before limb `i`.
pub open spec fn witness_limb_offset(i: int) -> int {
    if i <= 5 {
        87 * i
    } else {
        512
    }
}

/// The bits that `alloc_witness_bounded_total_bits` range-checks limb `i`
/// to: 43 while at least that many of the `total` remain, then the rest,
/// then none.
pub open spec fn bounded_limb_bits(total: int, i: int) -> nat {
    if 43 * i >= total {
        0
    } else if total - 43 * i < 43 {
        (total - 43 * i) as nat
    } else {
        43
    }
}

/// Variables, and rows, that `alloc_witness_bounded_total_bits` adds before
/// limb `i`: a variable and `2 b + 1` rows for a limb checked to `b > 0`
/// bits, nothing for the others.
pub open spec fn bounded_offset(total: int, i: nat) -> int
    decreases i,
{
    if i == 0 {
        0
    } else {
        let b = bounded_limb_bits(total, i - 1);
        bounded_offset(total, (i - 1) as nat) + if b > 0 {
            2 * b + 1
        } else {
            0
        }
    }
}

proof fn lemma_bounded_offset_bound(total: int, i: nat)
    ensures
        0 <= bounded_offset(total, i) <= 87 * i,
    decreases i,
{
    if i > 0 {
        lemma_bounded_offset_bound(total, (i - 1) as nat);
    }
}

/// A non-native value in a circuit: its limbs and the variables that hold
/// them.
#[derive(Clone, Copy, Debug)]
pub struct SimFrVar {
    pub val: SimFr,
    pub var: [VarIndex; 6],
}

/// The limbs of a product in a circuit and the variables that hold them.
#[derive(Clone, Copy, Debug)]
pub struct SimFrMulVar {
    pub val: SimFrMul,
    pub var: [VarIndex; 11],
}

/// Each variable of `var` exists in `cs` and holds the matching limb.
pub open spec fn holds_limbs(cs: &TurboCS, var: Seq<VarIndex>, limbs: Seq<u128>) -> bool {
    &&& var.len() == limbs.len()
    &&& forall|i: int|
        0 <= i < var.len() ==> (#[trigger] var[i]) < cs.witness@.len() && cs.witness@[var[i] as int].val()
            == limbs[i] as int
}

impl SimFrVar {
    /// Zero, on the zero variable.
    pub fn new(cs: &mut TurboCS) -> (r: SimFrVar)
        requires
            old(cs).wf(),
        ensures
            *final(cs) == *old(cs),
            r.val.value() == 0,
            forall|i: int| 0 <= i < 6 ==> #[trigger] r.var@[i] == 0,
    {
        let z = cs.zero_var();
        SimFrVar { val: SimFr::zero(), var: [z, z, z, z, z, z] }
    }

    /// `self - other`: one gate per limb, `res = self - other + pad`, where
    /// the padding `128 l` keeps every limb non-negative; no reduction gate is
    /// needed.
    pub fn sub(&self, cs: &mut TurboCS, other: &SimFrVar) -> (res: SimFrVar)
        requires
            old(cs).wf(),
            old(cs).witness@.len() + 6 < usize::MAX,
            forall|i: int| 0 <= i < 6 ==> (#[trigger] self.var@[i]) < old(cs).witness@.len(),
            forall|i: int| 0 <= i < 6 ==> (#[trigger] other.var@[i]) < old(cs).witness@.len(),
            limbs_within_pad(other.val.limbs@),
            limbs_below_2_60(self.val.limbs@),
        ensures
            final(cs).wf(),
            final(cs).extends(old(cs)),
            final(cs).gates@.len() == old(cs).gates@.len() + 6,
            limb_vals(res.val.limbs@) == sub_limbs(
                limb_vals(self.val.limbs@),
                limb_vals(other.val.limbs@),
            ),
            res.val.value() % modulus() == (self.val.value() - other.val.value()) % modulus(),
            holds_limbs(final(cs), res.var@, res.val.limbs@),
            holds_limbs(old(cs), self.var@, self.val.limbs@) && holds_limbs(
                old(cs),
                other.var@,
                other.val.limbs@,
            ) ==> final(cs).rows_hold_from(old(cs).gates@.len() as int),
            final(cs).witness@.len() == old(cs).witness@.len() + 6,
            forall|i: int| 0 <= i < 6 ==> #[trigger] res.var@[i] == old(cs).witness@.len() + i,
            forall|i: int|
                0 <= i < 6 ==> #[trigger] final(cs).row_is(
                    old(cs).gates@.len() + i,
                    wires5(self.var@[i], 0, other.var@[i], 0, res.var@[i]),
                    sub_sels(sub_pad()[i]),
                ),
            forall|wit: Seq<Fr>, i: int, pi: int|
                0 <= i < 6 && wit.len() == final(cs).witness@.len() && 0 <= pi < modulus()
                    ==> #[trigger] final(cs).row_residual(wit, old(cs).gates@.len() + i, pi)
                    == fsub(
                    fadd(
                        fadd(wit[self.var@[i] as int].val(), fneg(wit[other.var@[i] as int].val())),
                        fadd(sub_pad()[i], pi),
                    ),
                    wit[res.var@[i] as int].val(),
                ),
    {
        let val = self.val.sub(&other.val);
        let zero = Fr::zero();
        let one = Fr::one();
        let minus_one = one.neg();
        let pad: [u128; 6] = [
            14493281810048,
            10777775908400,
            10711442736622,
            8796093022212,
            17592186044415,
            17592186044414,
        ];
        let mut var: [VarIndex; 6] = [0, 0, 0, 0, 0, 0];
        let ghost old_cs = *old(cs);
        let ghost h = holds_limbs(&old_cs, self.var@, self.val.limbs@) && holds_limbs(
            &old_cs,
            other.var@,
            other.val.limbs@,
        );
        proof {
            assert(cs.witness@.subrange(0, old_cs.witness@.len() as int) =~= old_cs.witness@);
            assert(cs.gates@.subrange(0, old_cs.gates@.len() as int) =~= old_cs.gates@);
        }
        assert(one.val() == 1 && minus_one.val() == fneg(1));
        assert(limb_vals(pad@) =~= sub_pad());
        let mut i: usize = 0;
        while i < 6
            invariant
                cs.wf(),
                cs.extends(&old_cs),
                old_cs.wf(),
                one.val() == 1,
                zero.val() == 0,
                minus_one.val() == fneg(1),
                limb_vals(pad@) == sub_pad(),
                h == (holds_limbs(&old_cs, self.var@, self.val.limbs@) && holds_limbs(
                    &old_cs,
                    other.var@,
                    other.val.limbs@,
                )),
                h ==> cs.rows_hold_from(old_cs.gates@.len() as int),
                limb_vals(val.limbs@) == sub_limbs(
                    limb_vals(self.val.limbs@),
                    limb_vals(other.val.limbs@),
                ),
                limbs_within_pad(other.val.limbs@),
                limbs_below_2_60(self.val.limbs@),
                old_cs.witness@.len() + 6 < usize::MAX,
                cs.witness@.len() == old_cs.witness@.len() + i,
                cs.gates@.len() == old_cs.gates@.len() + i,
                forall|j: int| 0 <= j < 6 ==> (#[trigger] self.var@[j]) < old_cs.witness@.len(),
                forall|j: int| 0 <= j < 6 ==> (#[trigger] other.var@[j]) < old_cs.witness@.len(),
                i <= 6,
                var@.len() == 6,
                forall|j: int| 0 <= j < i ==> #[trigger] var@[j] == old_cs.witness@.len() + j,
                forall|j: int|
                    0 <= j < i ==> #[trigger] cs.row_is(
                        old_cs.gates@.len() + j,
                        wires5(self.var@[j], 0, other.var@[j], 0, var@[j]),
                        sub_sels(sub_pad()[j]),
                    ),
                forall|j: int|
                    0 <= j < i ==> (#[trigger] var@[j]) < cs.witness@.len() && cs.witness@[var@[j] as int].val()
                        == val.limbs@[j] as int,
            decreases 6 - i,
        {
            let ghost before = *cs;
            let v = cs.new_variable(Fr::from_u128(val.limbs[i]));
            var[i] = v;
            let c = Fr::from_u128(pad[i]);
            let sels = [one, zero, minus_one, zero, zero, zero, c, zero, zero, zero, zero, zero, one];
            let ghost pre = var@;
            cs.insert_gate([self.var[i], 0, other.var[i], 0, v], sels);
            proof {
                assert(cs.gates@.subrange(0, before.gates@.len() as int) =~= before.gates@);
                assert(cs.witness@.subrange(0, before.witness@.len() as int) =~= before.witness@);
                assert forall|j: int| 0 <= j < i implies #[trigger] cs.row_is(
                    old_cs.gates@.len() + j,
                    wires5(self.var@[j], 0, other.var@[j], 0, var@[j]),
                    sub_sels(sub_pad()[j]),
                ) by {
                    assert(var@[j] == pre[j]);
                    lemma_row_is_extend(cs, &before, old_cs.gates@.len() + j,
                        wires5(self.var@[j], 0, other.var@[j], 0, var@[j]),
                        sub_sels(sub_pad()[j]));
                }
                assert(c.val() == sub_pad()[i as int]) by {
                    assert(limb_vals(pad@)[i as int] == pad@[i as int] as int);
                }
                let row = before.gates@.len() as int;
                assert(cs.gates@[row].wires@ =~= wires5(self.var@[i as int], 0, other.var@[i as int], 0, var@[i as int]));
                assert forall|t: int| 0 <= t < 13 implies (#[trigger] cs.gates@[row].selectors[t]).val()
                    == sub_sels(sub_pad()[i as int])[t] by {
                    assert(cs.gates@[row].selectors@ == sels@);
                }
                assert(cs.row_is(row, wires5(self.var@[i as int], 0, other.var@[i as int], 0, var@[i as int]), sub_sels(sub_pad()[i as int])));
                assert(cs.witness@.subrange(0, old_cs.witness@.len() as int)
                    =~= before.witness@.subrange(0, old_cs.witness@.len() as int));
                assert(cs.gates@.subrange(0, old_cs.gates@.len() as int)
                    =~= before.gates@.subrange(0, old_cs.gates@.len() as int));
                assert(cs.gates@.subrange(0, before.gates@.len() as int) =~= before.gates@);
                assert(cs.witness@.subrange(0, before.witness@.len() as int) =~= before.witness@);
                if h {
                    let row = before.gates@.len() as int;
                    lemma_rows_hold_extend(cs, &before, old_cs.gates@.len() as int);
                    lemma_extends_keeps(cs, &old_cs, self.var@[i as int] as int);
                    lemma_extends_keeps(cs, &old_cs, other.var@[i as int] as int);
                    lemma_extends_keeps(cs, &old_cs, 0);
                    let a = self.val.limbs@[i as int] as int;
                    let b = other.val.limbs@[i as int] as int;
                    let r = val.limbs@[i as int] as int;
                    assert(limb_vals(val.limbs@)[i as int] == r);
                    assert(r == a + sub_pad()[i as int] - b);
                    assert(c.val() == sub_pad()[i as int]);
                    assert(cs.row_wire_vals(cs.witness@, row) =~= seq![a, 0, b, 0, r]);
                    assert(cs.row_selector_vals(row) =~= seq![
                        1int,
                        0,
                        fneg(1),
                        0,
                        0,
                        0,
                        sub_pad()[i as int],
                        0,
                        0,
                        0,
                        0,
                        0,
                        1,
                    ]);
                    lemma_sub_gate_holds(a, b, sub_pad()[i as int], r);
                }
            }
            i = i + 1;
        }
        let res = SimFrVar { val, var };
        proof {
            assert forall|wit: Seq<Fr>, i: int, pi: int|
                0 <= i < 6 && wit.len() == cs.witness@.len() && 0 <= pi < modulus()
                    implies #[trigger] cs.row_residual(wit, old_cs.gates@.len() + i, pi)
                    == fsub(
                    fadd(
                        fadd(wit[self.var@[i] as int].val(), fneg(wit[other.var@[i] as int].val())),
                        fadd(sub_pad()[i], pi),
                    ),
                    wit[res.var@[i] as int].val(),
                ) by {
                let ws = wires5(self.var@[i], 0, other.var@[i], 0, res.var@[i]);
                assert(cs.row_is(old_cs.gates@.len() + i, ws, sub_sels(sub_pad()[i])));
                lemma_row_residual_of(cs, old_cs.gates@.len() + i, ws, sub_sels(sub_pad()[i]), wit, pi);
                let wv = Seq::new(5, |w: int| wit[ws[w] as int].val());
                assert(0 <= sub_pad()[i] < modulus());
                lemma_sub_gate_form(wv, sub_pad()[i], pi);
            }
        }
        res
    }

    /// `self * other` as eleven limbs: limb `i` is built as a running sum of
    /// the cross products `self[l] * other[i - l]`, one gate per product.
    pub fn mul(&self, cs: &mut TurboCS, other: &SimFrVar) -> (res: SimFrMulVar)
        requires
            old(cs).wf(),
            old(cs).witness@.len() + 66 < usize::MAX,
            forall|i: int| 0 <= i < 6 ==> (#[trigger] self.var@[i]) < old(cs).witness@.len(),
            forall|i: int| 0 <= i < 6 ==> (#[trigger] other.var@[i]) < old(cs).witness@.len(),
            limbs_below_2_60(self.val.limbs@),
            limbs_below_2_60(other.val.limbs@),
        ensures
            final(cs).wf(),
            final(cs).extends(old(cs)),
            final(cs).gates@.len() == old(cs).gates@.len() + 36,
            limb_vals(res.val.limbs@) == mul_limbs(
                limb_vals(self.val.limbs@),
                limb_vals(other.val.limbs@),
            ),
            holds_limbs(final(cs), res.var@, res.val.limbs@),
            holds_limbs(old(cs), self.var@, self.val.limbs@) && holds_limbs(
                old(cs),
                other.var@,
                other.val.limbs@,
            ) ==> final(cs).rows_hold_from(old(cs).gates@.len() as int),
            final(cs).witness@.len() == old(cs).witness@.len() + 36,
            forall|i: int, l: int|
                0 <= i < 11 && smallest_left(i) <= l <= largest_left(i) ==> #[trigger] is_mul_row(
                    final(cs),
                    old(cs).gates@.len() as int,
                    old(cs).witness@.len() as int,
                    self.var@,
                    other.var@,
                    i,
                    l,
                ),
            forall|i: int|
                0 <= i < 11 ==> #[trigger] res.var@[i] == old(cs).witness@.len() + mul_gates_before(
                    (i + 1) as nat,
                ) - 1,
    {
        let val = self.val.mul(&other.val);
        let zero = Fr::zero();
        let one = Fr::one();
        let mut var: [VarIndex; 11] = [0, 0, 0, 0, 0, 0, 0, 0, 0, 0, 0];
        let ghost old_cs = *old(cs);
        let ghost h = holds_limbs(&old_cs, self.var@, self.val.limbs@) && holds_limbs(
            &old_cs,
            other.var@,
            other.val.limbs@,
        );
        proof {
            assert(cs.witness@.subrange(0, old_cs.witness@.len() as int) =~= old_cs.witness@);
            assert(cs.gates@.subrange(0, old_cs.gates@.len() as int) =~= old_cs.gates@);
        }
        let mut added: usize = 0;
        let mut i: usize = 0;
        while i < 11
            invariant
                cs.wf(),
                cs.extends(&old_cs),
                old_cs.wf(),
                one.val() == 1,
                zero.val() == 0,
                h == (holds_limbs(&old_cs, self.var@, self.val.limbs@) && holds_limbs(
                    &old_cs,
                    other.var@,
                    other.val.limbs@,
                )),
                h ==> cs.rows_hold_from(old_cs.gates@.len() as int),
                old_cs.witness@.len() + 66 < usize::MAX,
                cs.witness@.len() == old_cs.witness@.len() + added,
                cs.gates@.len() == old_cs.gates@.len() + added,
                added == mul_gates_before(i as nat),
                added <= 6 * i,
                forall|i2: int, l2: int|
                    0 <= i2 < i && smallest_left(i2) <= l2 <= largest_left(i2) ==> #[trigger] is_mul_row(
                        cs,
                        old_cs.gates@.len() as int,
                        old_cs.witness@.len() as int,
                        self.var@,
                        other.var@,
                        i2,
                        l2,
                    ),
                forall|j: int|
                    0 <= j < i ==> #[trigger] var@[j] == old_cs.witness@.len() + mul_gates_before(
                        (j + 1) as nat,
                    ) - 1,
                forall|j: int| 0 <= j < 6 ==> (#[trigger] self.var@[j]) < old_cs.witness@.len(),
                forall|j: int| 0 <= j < 6 ==> (#[trigger] other.var@[j]) < old_cs.witness@.len(),
                limbs_below_2_60(self.val.limbs@),
                limbs_below_2_60(other.val.limbs@),
                limb_vals(val.limbs@) == mul_limbs(
                    limb_vals(self.val.limbs@),
                    limb_vals(other.val.limbs@),
                ),
                i <= 11,
                var@.len() == 11,
                forall|j: int|
                    0 <= j < i ==> (#[trigger] var@[j]) < cs.witness@.len() && cs.witness@[var@[j] as int].val()
                        == val.limbs@[j] as int,
            decreases 11 - i,
        {
            let smallest = if i + 1 > 6 {
                i + 1 - 6
            } else {
                0
            };
            let largest = if i < 5 {
                i
            } else {
                5
            };
            let mut prior: VarIndex = 0;
            let mut left = smallest;
            let ghost start = added;
            while left <= largest
                invariant
                    cs.wf(),
                    cs.extends(&old_cs),
                    old_cs.wf(),
                    one.val() == 1,
                    zero.val() == 0,
                    h == (holds_limbs(&old_cs, self.var@, self.val.limbs@) && holds_limbs(
                        &old_cs,
                        other.var@,
                        other.val.limbs@,
                    )),
                    h ==> cs.rows_hold_from(old_cs.gates@.len() as int),
                    left == smallest ==> prior == 0,
                    old_cs.witness@.len() + 66 < usize::MAX,
                    i < 11,
                    smallest == smallest_left(i as int),
                    largest == largest_left(i as int),
                    smallest <= left <= largest + 1,
                    added == start + (left - smallest),
                    start == mul_gates_before(i as nat),
                    start <= 6 * i,
                    left > smallest ==> prior == old_cs.witness@.len() + added - 1,
                    forall|i2: int, l2: int|
                        (0 <= i2 < i && smallest_left(i2) <= l2 <= largest_left(i2)) || (i2 == i
                            && smallest <= l2 < left) ==> #[trigger] is_mul_row(
                            cs,
                            old_cs.gates@.len() as int,
                            old_cs.witness@.len() as int,
                            self.var@,
                            other.var@,
                            i2,
                            l2,
                        ),
                    forall|j: int|
                        0 <= j < i ==> #[trigger] var@[j] == old_cs.witness@.len() + mul_gates_before(
                            (j + 1) as nat,
                        ) - 1,
                    cs.witness@.len() == old_cs.witness@.len() + added,
                    cs.gates@.len() == old_cs.gates@.len() + added,
                    forall|j: int| 0 <= j < 6 ==> (#[trigger] self.var@[j]) < old_cs.witness@.len(),
                    forall|j: int| 0 <= j < 6 ==> (#[trigger] other.var@[j]) < old_cs.witness@.len(),
                    limbs_below_2_60(self.val.limbs@),
                    limbs_below_2_60(other.val.limbs@),
                    prior < cs.witness@.len(),
                    left > smallest ==> cs.witness@[prior as int].val() == conv_sum(
                        limb_vals(self.val.limbs@),
                        limb_vals(other.val.limbs@),
                        i as int,
                        smallest as int,
                        left as int,
                    ),
                    forall|j: int|
                        0 <= j < i ==> (#[trigger] var@[j]) < cs.witness@.len() && cs.witness@[var@[j] as int].val()
                            == val.limbs@[j] as int,
                    var@.len() == 11,
                decreases largest + 1 - left,
            {
                let partial = conv_exec(&self.val.limbs, &other.val.limbs, i, smallest, left + 1);
                let ghost before = *cs;
                let res = cs.new_variable(Fr::from_u128(partial));
                let sels = [one, zero, zero, zero, zero, one, zero, zero, zero, zero, zero, zero, one];
                cs.insert_gate([prior, 0, self.var[left], other.var[i - left], res], sels);
                proof {
                    assert(cs.witness@.subrange(0, old_cs.witness@.len() as int)
                        =~= before.witness@.subrange(0, old_cs.witness@.len() as int));
                    assert(cs.gates@.subrange(0, old_cs.gates@.len() as int)
                        =~= before.gates@.subrange(0, old_cs.gates@.len() as int));
                    assert(cs.gates@.subrange(0, before.gates@.len() as int) =~= before.gates@);
                    assert(cs.witness@.subrange(0, before.witness@.len() as int) =~= before.witness@);
                    let nrow = before.gates@.len() as int;
                    assert(nrow == old_cs.gates@.len() + mul_row(i as int, left as int));
                    assert(res == old_cs.witness@.len() + mul_row(i as int, left as int));
                    assert(cs.gates@[nrow].wires@ =~= wires5(
                        prior,
                        0,
                        self.var@[left as int],
                        other.var@[i - left],
                        res,
                    ));
                    assert forall|t: int| 0 <= t < 13 implies (#[trigger] cs.gates@[nrow].selectors[
                        t
                    ]).val() == mul_acc_sels()[t] by {
                        assert(cs.gates@[nrow].selectors@ == sels@);
                    }
                    assert(is_mul_row(
                        cs,
                        old_cs.gates@.len() as int,
                        old_cs.witness@.len() as int,
                        self.var@,
                        other.var@,
                        i as int,
                        left as int,
                    ));
                    assert forall|i2: int, l2: int|
                        (0 <= i2 < i && smallest_left(i2) <= l2 <= largest_left(i2)) || (i2 == i
                            && smallest <= l2 < left) implies #[trigger] is_mul_row(
                        cs,
                        old_cs.gates@.len() as int,
                        old_cs.witness@.len() as int,
                        self.var@,
                        other.var@,
                        i2,
                        l2,
                    ) by {
                        let k = mul_row(i2, l2);
                        let pr = if l2 == smallest_left(i2) {
                            0usize
                        } else {
                            (old_cs.witness@.len() + k - 1) as usize
                        };
                        if !(i2 == i && l2 == left) {
                            assert(is_mul_row(
                                &before,
                                old_cs.gates@.len() as int,
                                old_cs.witness@.len() as int,
                                self.var@,
                                other.var@,
                                i2,
                                l2,
                            ));
                            lemma_row_is_extend(
                            cs,
                            &before,
                            old_cs.gates@.len() + k,
                            wires5(
                                pr,
                                0,
                                self.var@[l2],
                                other.var@[i2 - l2],
                                (old_cs.witness@.len() + k) as usize,
                            ),
                            mul_acc_sels(),
                        );
                        }
                    }
                    if h {
                        let row = before.gates@.len() as int;
                        lemma_rows_hold_extend(cs, &before, old_cs.gates@.len() as int);
                        lemma_extends_keeps(cs, &old_cs, self.var@[left as int] as int);
                        lemma_extends_keeps(cs, &old_cs, other.var@[i - left] as int);
                        lemma_extends_keeps(cs, &old_cs, 0);
                        lemma_extends_keeps(cs, &before, prior as int);
                        let la = limb_vals(self.val.limbs@);
                        let lb = limb_vals(other.val.limbs@);
                        let a = la[left as int];
                        let b = lb[i - left];
                        let pv = cs.witness@[prior as int].val();
                        assert(pv == conv_sum(la, lb, i as int, smallest as int, left as int));
                        assert(partial as int == pv + a * b);
                        assert(a * b >= 0) by (nonlinear_arith)
                            requires
                                a >= 0,
                                b >= 0,
                        ;
                        assert(cs.row_wire_vals(cs.witness@, row) =~= seq![
                            pv,
                            0,
                            a,
                            b,
                            partial as int,
                        ]);
                        assert(cs.row_selector_vals(row) =~= seq![
                            1int,
                            0,
                            0,
                            0,
                            0,
                            1,
                            0,
                            0,
                            0,
                            0,
                            0,
                            0,
                            1,
                        ]);
                        lemma_mul_gate_holds(pv, a, b, partial as int);
                    }
                }
                prior = res;
                left = left + 1;
                added = added + 1;
            }
            assert(added == mul_gates_before((i + 1) as nat));
            proof {
                lemma_mul_gates_bound((i + 1) as nat);
                let a = limb_vals(self.val.limbs@);
                let b = limb_vals(other.val.limbs@);
                assert(limb_vals(val.limbs@)[i as int] == mul_limbs(a, b)[i as int]);
                assert(cs.witness@[prior as int].val() == val.limbs@[i as int] as int);
            }
            let ghost pre = var@;
            var[i] = prior;
            proof {
                assert forall|j: int| 0 <= j < i implies #[trigger] var@[j] == old_cs.witness@.len()
                    + mul_gates_before((j + 1) as nat) - 1 by {
                    assert(var@[j] == pre[j]);
                }
            }
            i = i + 1;
        }
        proof {
            reveal_with_fuel(mul_gates_before, 12);
        }
        SimFrMulVar { val, var }
    }

    /// Puts each limb of `val` in a new variable fixed by a constant gate.
    pub fn alloc_constant(cs: &mut TurboCS, val: &SimFr) -> (res: SimFrVar)
        requires
            old(cs).wf(),
            old(cs).witness@.len() + 6 < usize::MAX,
        ensures
            final(cs).wf(),
            final(cs).extends(old(cs)),
            final(cs).gates@.len() == old(cs).gates@.len() + 6,
            res.val == *val,
            holds_limbs(final(cs), res.var@, res.val.limbs@),
            final(cs).rows_hold_from(old(cs).gates@.len() as int),
            final(cs).witness@.len() == old(cs).witness@.len() + 6,
            forall|i: int| 0 <= i < 6 ==> #[trigger] res.var@[i] == old(cs).witness@.len() + i,
            forall|i: int|
                0 <= i < 6 ==> #[trigger] final(cs).row_is(
                    old(cs).gates@.len() + i,
                    wires5(res.var@[i], 0, 0, 0, 0),
                    const_sels(val.limbs@[i] as int),
                ),
            forall|wit: Seq<Fr>, i: int, pi: int|
                0 <= i < 6 && wit.len() == final(cs).witness@.len() && 0 <= pi < modulus()
                    ==> #[trigger] final(cs).row_residual(wit, old(cs).gates@.len() + i, pi)
                    == fadd(wit[res.var@[i] as int].val(), fadd(fneg(val.limbs@[i] as int), pi)),
    {
        let mut var: [VarIndex; 6] = [0, 0, 0, 0, 0, 0];
        let ghost old_cs = *old(cs);
        proof {
            assert(cs.witness@.subrange(0, old_cs.witness@.len() as int) =~= old_cs.witness@);
            assert(cs.gates@.subrange(0, old_cs.gates@.len() as int) =~= old_cs.gates@);
        }
        let mut i: usize = 0;
        while i < 6
            invariant
                cs.wf(),
                cs.extends(&old_cs),
                old_cs.witness@.len() + 6 < usize::MAX,
                cs.witness@.len() == old_cs.witness@.len() + i,
                cs.gates@.len() == old_cs.gates@.len() + i,
                old_cs.wf(),
                cs.rows_hold_from(old_cs.gates@.len() as int),
                i <= 6,
                var@.len() == 6,
                forall|j: int| 0 <= j < i ==> #[trigger] var@[j] == old_cs.witness@.len() + j,
                forall|j: int|
                    0 <= j < i ==> #[trigger] cs.row_is(
                        old_cs.gates@.len() + j,
                        wires5(var@[j], 0, 0, 0, 0),
                        const_sels(val.limbs@[j] as int),
                    ),
                forall|j: int|
                    0 <= j < i ==> (#[trigger] var@[j]) < cs.witness@.len() && cs.witness@[var@[j] as int].val()
                        == val.limbs@[j] as int,
            decreases 6 - i,
        {
            let ghost before = *cs;
            let c = Fr::from_u128(val.limbs[i]);
            let v = cs.new_variable(c);
            let ghost mid = *cs;
            cs.insert_constant_gate(v, c);
            proof {
                assert(cs.witness@.subrange(0, old_cs.witness@.len() as int)
                    =~= before.witness@.subrange(0, old_cs.witness@.len() as int));
                assert(cs.gates@.subrange(0, old_cs.gates@.len() as int)
                    =~= before.gates@.subrange(0, old_cs.gates@.len() as int));
                assert(cs.gates@.subrange(0, before.gates@.len() as int) =~= before.gates@);
                assert(cs.witness@.subrange(0, before.witness@.len() as int) =~= before.witness@);
                lemma_rows_hold_extend(cs, &before, old_cs.gates@.len() as int);
                let row = before.gates@.len() as int;
                assert(cs.row_residual(cs.witness@, row, 0) == fadd(
                    cs.witness@[v as int].val(),
                    fadd(fneg(c.val()), 0),
                ));
                lemma_fadd_fneg(c.val());
                assert forall|j: int| 0 <= j < i implies #[trigger] cs.row_is(
                    old_cs.gates@.len() + j,
                    wires5(var@[j], 0, 0, 0, 0),
                    const_sels(val.limbs@[j] as int),
                ) by {
                    lemma_row_is_extend(cs, &before, old_cs.gates@.len() + j,
                        wires5(var@[j], 0, 0, 0, 0), const_sels(val.limbs@[j] as int));
                }
            }
            var[i] = v;
            i = i + 1;
        }
        let res = SimFrVar { val: *val, var };
        proof {
            assert forall|wit: Seq<Fr>, i: int, pi: int|
                0 <= i < 6 && wit.len() == cs.witness@.len() && 0 <= pi < modulus()
                    implies #[trigger] cs.row_residual(wit, old_cs.gates@.len() + i, pi)
                    == fadd(wit[res.var@[i] as int].val(), fadd(fneg(val.limbs@[i] as int), pi)) by {
                let ws = wires5(res.var@[i], 0, 0, 0, 0);
                let cv = val.limbs@[i] as int;
                assert(cs.row_is(old_cs.gates@.len() + i, ws, const_sels(cv)));
                lemma_row_residual_of(cs, old_cs.gates@.len() + i, ws, const_sels(cv), wit, pi);
                lemma_const_gate_form(Seq::new(5, |w: int| wit[ws[w] as int].val()), cv, pi);
            }
        }
        res
    }

    /// Puts each limb of `val` in a new variable, with no gate.
    pub fn alloc_input(cs: &mut TurboCS, val: &SimFr) -> (res: SimFrVar)
        requires
            old(cs).wf(),
            old(cs).witness@.len() + 6 < usize::MAX,
        ensures
            final(cs).wf(),
            final(cs).extends(old(cs)),
            final(cs).gates@ == old(cs).gates@,
            final(cs).witness@.len() == old(cs).witness@.len() + 6,
            res.val == *val,
            holds_limbs(final(cs), res.var@, res.val.limbs@),
    {
        let mut var: [VarIndex; 6] = [0, 0, 0, 0, 0, 0];
        let ghost old_cs = *old(cs);
        proof {
            assert(cs.witness@.subrange(0, old_cs.witness@.len() as int) =~= old_cs.witness@);
            assert(cs.gates@.subrange(0, old_cs.gates@.len() as int) =~= old_cs.gates@);
        }
        let mut i: usize = 0;
        while i < 6
            invariant
                cs.wf(),
                cs.extends(&old_cs),
                cs.gates@ == old_cs.gates@,
                old_cs.witness@.len() + 6 < usize::MAX,
                cs.witness@.len() == old_cs.witness@.len() + i,
                i <= 6,
                var@.len() == 6,
                forall|j: int|
                    0 <= j < i ==> (#[trigger] var@[j]) < cs.witness@.len() && cs.witness@[var@[j] as int].val()
                        == val.limbs@[j] as int,
            decreases 6 - i,
        {
            let ghost before = *cs;
            let v = cs.new_variable(Fr::from_u128(val.limbs[i]));
            proof {
                assert(cs.witness@.subrange(0, old_cs.witness@.len() as int)
                    =~= before.witness@.subrange(0, old_cs.witness@.len() as int));
            }
            var[i] = v;
            i = i + 1;
        }
        SimFrVar { val: *val, var }
    }

    /// Puts each limb of a reduced `val` in a new variable and range-checks it:
    /// 43 bits for the lower limbs, 38 for the top one. The result may have
    /// grown by one addition's worth of slack.
    pub fn alloc_witness(cs: &mut TurboCS, val: &SimFr) -> (res: SimFrVar)
        requires
            old(cs).wf(),
            old(cs).witness@.len() + 1024 < usize::MAX,
            val.num_of_additions_over_normal_form == SimReducibility::StrictlyNotReducible,
        ensures
            final(cs).wf(),
            final(cs).extends(old(cs)),
            res.val.limbs == val.limbs,
            res.val.num_of_additions_over_normal_form == SimReducibility::AtMostReducibleByOne,
            holds_limbs(final(cs), res.var@, res.val.limbs@),
            final(cs).witness@.len() == old(cs).witness@.len() + 512,
            final(cs).gates@.len() == old(cs).gates@.len() + 512,
            forall|i: int|
                0 <= i < 6 ==> #[trigger] res.var@[i] == old(cs).witness@.len() + 87 * i
                    && is_range_check(
                    final(cs),
                    res.var@[i],
                    witness_limb_bits(i),
                    old(cs).gates@.len() + 87 * i,
                    old(cs).witness@.len() + 87 * i + 1,
                ),
    {
        let mut var: [VarIndex; 6] = [0, 0, 0, 0, 0, 0];
        let ghost old_cs = *old(cs);
        proof {
            assert(cs.witness@.subrange(0, old_cs.witness@.len() as int) =~= old_cs.witness@);
            assert(cs.gates@.subrange(0, old_cs.gates@.len() as int) =~= old_cs.gates@);
        }
        let mut i: usize = 0;
        while i < 6
            invariant
                cs.wf(),
                cs.extends(&old_cs),
                old_cs.witness@.len() + 1024 < usize::MAX,
                cs.witness@.len() == old_cs.witness@.len() + witness_limb_offset(i as int),
                cs.gates@.len() == old_cs.gates@.len() + witness_limb_offset(i as int),
                forall|j: int|
                    0 <= j < i ==> #[trigger] var@[j] == old_cs.witness@.len() + 87 * j
                        && is_range_check(
                        cs,
                        var@[j],
                        witness_limb_bits(j),
                        old_cs.gates@.len() + 87 * j,
                        old_cs.witness@.len() + 87 * j + 1,
                    ),
                i <= 6,
                var@.len() == 6,
                forall|j: int|
                    0 <= j < i ==> (#[trigger] var@[j]) < cs.witness@.len() && cs.witness@[var@[j] as int].val()
                        == val.limbs@[j] as int,
            decreases 6 - i,
        {
            let ghost before = *cs;
            let v = cs.new_variable(Fr::from_u128(val.limbs[i]));
            let ghost mid = *cs;
            proof {
                assert(cs.witness@.subrange(0, before.witness@.len() as int) =~= before.witness@);
                assert(cs.gates@.subrange(0, before.gates@.len() as int) =~= before.gates@);
            }
            if i == 5 {
                cs.range_check(v, BIT_IN_TOP_LIMB);
            } else {
                cs.range_check(v, BIT_PER_LIMB);
            }
            proof {
                lemma_extends_trans(cs, &mid, &before);
                lemma_extends_trans(cs, &before, &old_cs);
                lemma_extends_keeps(cs, &mid, v as int);
                assert forall|j: int|
                    0 <= j < i implies (#[trigger] var@[j]) < cs.witness@.len()
                        && cs.witness@[var@[j] as int].val() == val.limbs@[j] as int by {
                    lemma_extends_keeps(cs, &before, var@[j] as int);
                }
                assert forall|j: int| 0 <= j < i implies #[trigger] var@[j] == old_cs.witness@.len()
                    + 87 * j && is_range_check(
                    cs,
                    var@[j],
                    witness_limb_bits(j),
                    old_cs.gates@.len() + 87 * j,
                    old_cs.witness@.len() + 87 * j + 1,
                ) by {
                    lemma_range_check_extend(
                        cs,
                        &before,
                        var@[j],
                        witness_limb_bits(j),
                        old_cs.gates@.len() + 87 * j,
                        old_cs.witness@.len() + 87 * j + 1,
                    );
                }
                assert(is_range_check(
                    cs,
                    v,
                    witness_limb_bits(i as int),
                    old_cs.gates@.len() + 87 * i,
                    old_cs.witness@.len() + 87 * i + 1,
                ));
            }
            let ghost pre = var@;
            var[i] = v;
            assert(forall|j: int| 0 <= j < i ==> var@[j] == pre[j]);
            i = i + 1;
        }
        let mut res_val = *val;
        res_val.num_of_additions_over_normal_form = SimReducibility::AtMostReducibleByOne;
        SimFrVar { val: res_val, var }
    }

    /// Like `alloc_witness`, but range-checks only `total_bits` bits in all,
    /// 43 per limb from the bottom; limbs past them are left on the zero
    /// variable. Only a full 253-bit check leaves the slack of one addition.
    pub fn alloc_witness_bounded_total_bits(cs: &mut TurboCS, val: &SimFr, total_bits: usize) -> (res:
        SimFrVar)
        requires
            old(cs).wf(),
            old(cs).witness@.len() + 1024 < usize::MAX,
            total_bits <= 258,
            val.num_of_additions_over_normal_form == SimReducibility::StrictlyNotReducible,
        ensures
            final(cs).wf(),
            final(cs).extends(old(cs)),
            res.val.limbs == val.limbs,
            res.val.num_of_additions_over_normal_form == (if total_bits == 253 {
                SimReducibility::AtMostReducibleByOne
            } else {
                SimReducibility::StrictlyNotReducible
            }),
            forall|i: int|
                0 <= i < 6 ==> if 43 * i < total_bits {
                    (#[trigger] res.var@[i]) < final(cs).witness@.len()
                        && final(cs).witness@[res.var@[i] as int].val() == val.limbs@[i] as int
                } else {
                    res.var@[i] == 0
                },
            final(cs).witness@.len() == old(cs).witness@.len() + bounded_offset(total_bits as int, 6),
            final(cs).gates@.len() == old(cs).gates@.len() + bounded_offset(total_bits as int, 6),
            forall|i: int|
                0 <= i < 6 && 43 * i < total_bits ==> #[trigger] res.var@[i] == old(
                    cs,
                ).witness@.len() + bounded_offset(total_bits as int, i as nat) && is_range_check(
                    final(cs),
                    res.var@[i],
                    bounded_limb_bits(total_bits as int, i),
                    old(cs).gates@.len() + bounded_offset(total_bits as int, i as nat),
                    old(cs).witness@.len() + bounded_offset(total_bits as int, i as nat) + 1,
                ),
    {
        let mut var: [VarIndex; 6] = [0, 0, 0, 0, 0, 0];
        let ghost old_cs = *old(cs);
        proof {
            assert(cs.witness@.subrange(0, old_cs.witness@.len() as int) =~= old_cs.witness@);
            assert(cs.gates@.subrange(0, old_cs.gates@.len() as int) =~= old_cs.gates@);
        }
        let mut remaining_bits = total_bits;
        let mut i: usize = 0;
        while i < 6
            invariant
                cs.wf(),
                cs.extends(&old_cs),
                old_cs.witness@.len() + 1024 < usize::MAX,
                cs.witness@.len() == old_cs.witness@.len() + bounded_offset(total_bits as int, i as nat),
                cs.gates@.len() == old_cs.gates@.len() + bounded_offset(total_bits as int, i as nat),
                forall|j: int|
                    0 <= j < i && 43 * j < total_bits ==> #[trigger] var@[j] == old_cs.witness@.len()
                        + bounded_offset(total_bits as int, j as nat) && is_range_check(
                        cs,
                        var@[j],
                        bounded_limb_bits(total_bits as int, j),
                        old_cs.gates@.len() + bounded_offset(total_bits as int, j as nat),
                        old_cs.witness@.len() + bounded_offset(total_bits as int, j as nat) + 1,
                    ),
                total_bits <= 258,
                i <= 6,
                remaining_bits == if 43 * i < total_bits { total_bits - 43 * i } else { 0 },
                var@.len() == 6,
                forall|j: int|
                    0 <= j < i ==> if 43 * j < total_bits {
                        (#[trigger] var@[j]) < cs.witness@.len() && cs.witness@[var@[j] as int].val()
                            == val.limbs@[j] as int
                    } else {
                        var@[j] == 0
                    },
                forall|j: int| i <= j < 6 ==> #[trigger] var@[j] == 0,
            decreases 6 - i,
        {
            proof {
                lemma_bounded_offset_bound(total_bits as int, i as nat);
            }
            if remaining_bits != 0 {
                let ghost before = *cs;
                let v = cs.new_variable(Fr::from_u128(val.limbs[i]));
                let ghost mid = *cs;
                proof {
                    assert(cs.witness@.subrange(0, before.witness@.len() as int) =~= before.witness@);
                    assert(cs.gates@.subrange(0, before.gates@.len() as int) =~= before.gates@);
                }
                let bit_limit = if remaining_bits < BIT_PER_LIMB {
                    remaining_bits
                } else {
                    BIT_PER_LIMB
                };
                cs.range_check(v, bit_limit);
                remaining_bits = remaining_bits - bit_limit;
                proof {
                    lemma_extends_trans(cs, &mid, &before);
                    lemma_extends_trans(cs, &before, &old_cs);
                    lemma_extends_keeps(cs, &mid, v as int);
                    assert forall|j: int|
                        0 <= j < i && 43 * j < total_bits implies (#[trigger] var@[j])
                            < cs.witness@.len() && cs.witness@[var@[j] as int].val()
                            == val.limbs@[j] as int by {
                        lemma_extends_keeps(cs, &before, var@[j] as int);
                    }
                    let t = total_bits as int;
                    assert forall|j: int|
                        0 <= j < i && 43 * j < total_bits implies #[trigger] var@[j]
                            == old_cs.witness@.len() + bounded_offset(t, j as nat) && is_range_check(
                            cs,
                            var@[j],
                            bounded_limb_bits(t, j),
                            old_cs.gates@.len() + bounded_offset(t, j as nat),
                            old_cs.witness@.len() + bounded_offset(t, j as nat) + 1,
                        ) by {
                        lemma_range_check_extend(
                            cs,
                            &before,
                            var@[j],
                            bounded_limb_bits(t, j),
                            old_cs.gates@.len() + bounded_offset(t, j as nat),
                            old_cs.witness@.len() + bounded_offset(t, j as nat) + 1,
                        );
                    }
                    assert(bit_limit as nat == bounded_limb_bits(t, i as int));
                }
                let ghost pre = var@;
                var[i] = v;
                assert(forall|j: int| 0 <= j < 6 && j != i ==> var@[j] == pre[j]);
            }
            i = i + 1;
        }
        let mut res_val = *val;
        if total_bits == 253 {
            res_val.num_of_additions_over_normal_form = SimReducibility::AtMostReducibleByOne;
        }
        SimFrVar { val: res_val, var }
    }
}

} // verus!
