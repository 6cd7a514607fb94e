//! The scalar field of the Ristretto group, `Z / l Z` with `l` prime.
//!
//! A field element is held as its canonical little-endian encoding; the
//! arithmetic itself is done by curve25519-dalek's `Scalar`.
use curve25519_dalek::scalar::Scalar;
use vstd::prelude::*;

verus! {

/// The prime order `l = 2^252 + 27742317777372353535851937790883648493`.
pub open spec fn modulus() -> int {
    (85070591730234615865843651857942052864 * 85070591730234615865843651857942052864
        + 27742317777372353535851937790883648493) as int
}

/// The integer that a little-endian byte string encodes.
pub open spec fn le_val(s: Seq<u8>) -> nat
    decreases s.len(),
{
    if s.len() == 0 {
        0
    } else {
        s[0] as nat + 256 * le_val(s.subrange(1, s.len() as int))
    }
}

/// `256^k`.
pub open spec fn pow256(k: nat) -> nat
    decreases k,
{
    if k == 0 {
        1
    } else {
        256 * pow256((k - 1) as nat)
    }
}

/// `256^k` grows with `k`.
pub proof fn lemma_pow256_mono(a: nat, b: nat)
    requires
        a <= b,
    ensures
        pow256(a) <= pow256(b),
    decreases b - a,
{
    if a < b {
        lemma_pow256_mono(a, (b - 1) as nat);
    }
}

/// Field addition on canonical representatives.
pub open spec fn fadd(a: int, b: int) -> int {
    (a + b) % modulus()
}

/// Field subtraction on canonical representatives.
pub open spec fn fsub(a: int, b: int) -> int {
    (a - b) % modulus()
}

/// Field multiplication on canonical representatives.
pub open spec fn fmul(a: int, b: int) -> int {
    (a * b) % modulus()
}

/// Field negation on canonical representatives.
pub open spec fn fneg(a: int) -> int {
    (-a) % modulus()
}

/// `a^e` in the field.
pub open spec fn fpow(a: int, e: nat) -> int
    decreases e,
{
    if e == 0 {
        1
    } else {
        fmul(fpow(a, (e - 1) as nat), a)
    }
}

/// `a * a` in the field.
pub open spec fn fsq(a: int) -> int {
    fmul(a, a)
}

/// The inverse of `a` in the field, where one exists.
pub open spec fn finv(a: int) -> int {
    choose|x: int| 0 <= x < modulus() && fmul(x, a) == 1
}

/// An element has at most one inverse.
pub proof fn lemma_inverse_unique(a: int, x: int, y: int)
    requires
        0 <= x < modulus(),
        0 <= y < modulus(),
        fmul(x, a) == 1,
        fmul(y, a) == 1,
    ensures
        x == y,
{
    let m = modulus();
    vstd::arithmetic::div_mod::lemma_small_mod(x as nat, m as nat);
    vstd::arithmetic::div_mod::lemma_small_mod(y as nat, m as nat);
    vstd::arithmetic::div_mod::lemma_mul_mod_noop_right(x, y * a, m);
    vstd::arithmetic::div_mod::lemma_mul_mod_noop_left(x * a, y, m);
    assert(x * (y * a) == (x * a) * y) by (nonlinear_arith);
    assert(x * ((y * a) % m) % m == x % m);
    assert(((x * a) % m) * y % m == y % m);
}

/// A canonical inverse of `a` is `finv(a)`.
pub proof fn lemma_finv(a: int, x: int)
    requires
        0 <= x < modulus(),
        fmul(x, a) == 1,
    ensures
        finv(a) == x,
{
    let y = finv(a);
    lemma_inverse_unique(a, x, y);
}

/// An element of the scalar field.
#[derive(Clone, Copy, Debug, PartialEq, Eq, Hash)]
pub struct Fr {
    bytes: [u8; 32],
}

/// Relies on `Scalar::from_bytes_mod_order` and `Scalar::to_bytes`: the
/// encoding is reduced modulo the group order.
#[verifier::external_body]
fn dalek_reduce(bytes: [u8; 32]) -> (r: Fr)
    ensures
        r.val() == (le_val(bytes@) as int) % modulus(),
{
    Fr { bytes: Scalar::from_bytes_mod_order(bytes).to_bytes() }
}

/// Relies on `Scalar::from_canonical_bytes`: `Some` exactly for the encoding
/// of an integer below the group order.
#[verifier::external_body]
fn dalek_from_canonical(bytes: [u8; 32]) -> (r: Option<Fr>)
    ensures
        r is Some <==> le_val(bytes@) < modulus(),
        r matches Some(x) ==> x.val() == le_val(bytes@),
{
    match Option::<Scalar>::from(Scalar::from_canonical_bytes(bytes)) {
        Some(s) => Some(Fr { bytes: s.to_bytes() }),
        None => None,
    }
}

/// The encoding of `x`: its sixteen bytes, lowest first, then zeros.
fn encode_u128(x: u128) -> (r: Fr)
    ensures
        r.val() == x as int,
{
    let mut bytes: [u8; 32] = [0u8; 32];
    let mut y: u128 = x;
    let mut i: usize = 0;
    proof {
        reveal_with_fuel(pow256, 17);
        assert(x as int / 1 == x as int);
        assert(forall|j: int| 0 <= j < 32 ==> bytes@[j] == 0);
    }
    while i < 16
        invariant
            i <= 16,
            y as int == x as int / (pow256(i as nat) as int),
            pow256(16) == 0x1_0000_0000_0000_0000_0000_0000_0000_0000,
            forall|j: int| 0 <= j < i ==> bytes@[j] as int == (x as int / (pow256(j as nat) as int)) % 256,
            forall|j: int| i <= j < 32 ==> bytes@[j] == 0,
        decreases 16 - i,
    {
        bytes[i] = (y % 256) as u8;
        proof {
            lemma_pow256_pos(i as nat);
            vstd::arithmetic::div_mod::lemma_div_denominator(x as int, pow256(i as nat) as int, 256);
            assert(pow256((i + 1) as nat) == pow256(i as nat) * 256);
        }
        y = y / 256;
        i = i + 1;
    }
    proof {
        assert forall|j: int| 16 <= j < 32 implies bytes@[j] as int == (x as int / (pow256(j as nat) as int)) % 256 by {
            lemma_pow256_mono(16, j as nat);
            lemma_pow256_pos(j as nat);
            vstd::arithmetic::div_mod::lemma_div_pos_is_pos(x as int, pow256(j as nat) as int);
            assert(x as int / (pow256(j as nat) as int) == 0) by {
                vstd::arithmetic::div_mod::lemma_basic_div(x as int, pow256(j as nat) as int);
            }
        }
        lemma_le_val_digits(bytes@, x as int, 0);
        assert(bytes@.subrange(0, 32) =~= bytes@);
        assert(le_val(bytes@) == x as int);
        lemma_pow256_mono(16, 32);
        vstd::arithmetic::div_mod::lemma_small_mod(x as nat, modulus() as nat);
    }
    Fr { bytes }
}

/// Digits of `x` in base 256 encode `x` from position `k` on, as `x / 256^k`.
proof fn lemma_le_val_digits(s: Seq<u8>, x: int, k: nat)
    requires
        s.len() == 32,
        0 <= x < pow256(16),
        k <= 32,
        forall|j: int| 0 <= j < 32 ==> s[j] as int == (x / (pow256(j as nat) as int)) % 256,
    ensures
        le_val(s.subrange(k as int, 32)) == x / (pow256(k) as int),
    decreases 32 - k,
{
    if k == 32 {
        lemma_pow256_mono(16, 32);
        vstd::arithmetic::div_mod::lemma_basic_div(x, pow256(32) as int);
    } else {
        lemma_le_val_digits(s, x, k + 1);
        let t = s.subrange(k as int, 32);
        assert(t.subrange(1, t.len() as int) =~= s.subrange((k + 1) as int, 32));
        lemma_pow256_pos(k);
        vstd::arithmetic::div_mod::lemma_div_denominator(x, pow256(k) as int, 256);
        assert(pow256(k + 1) == pow256(k) * 256);
        let q = x / (pow256(k) as int);
        vstd::arithmetic::div_mod::lemma_fundamental_div_mod(q, 256);
        vstd::arithmetic::div_mod::lemma_div_pos_is_pos(x, pow256(k) as int);
    }
}

/// `256^k` is positive.
pub proof fn lemma_pow256_pos(k: nat)
    ensures
        pow256(k) > 0,
    decreases k,
{
    if k > 0 {
        lemma_pow256_pos((k - 1) as nat);
    }
}

/// Relies on curve25519-dalek's `Add` for `Scalar`: addition modulo the order.
#[verifier::external_body]
fn dalek_add(a: &Fr, b: &Fr) -> (r: Fr)
    ensures
        r.val() == fadd(a.val(), b.val()),
{
    let s = Scalar::from_bytes_mod_order(a.bytes) + Scalar::from_bytes_mod_order(b.bytes);
    Fr { bytes: s.to_bytes() }
}

/// Relies on curve25519-dalek's `Sub` for `Scalar`: subtraction modulo the order.
#[verifier::external_body]
fn dalek_sub(a: &Fr, b: &Fr) -> (r: Fr)
    ensures
        r.val() == fsub(a.val(), b.val()),
{
    let s = Scalar::from_bytes_mod_order(a.bytes) - Scalar::from_bytes_mod_order(b.bytes);
    Fr { bytes: s.to_bytes() }
}

/// Relies on curve25519-dalek's `Mul` for `Scalar`: multiplication modulo the order.
#[verifier::external_body]
fn dalek_mul(a: &Fr, b: &Fr) -> (r: Fr)
    ensures
        r.val() == fmul(a.val(), b.val()),
{
    let s = Scalar::from_bytes_mod_order(a.bytes) * Scalar::from_bytes_mod_order(b.bytes);
    Fr { bytes: s.to_bytes() }
}

/// Relies on curve25519-dalek's `Neg` for `Scalar`: negation modulo the order.
#[verifier::external_body]
fn dalek_neg(a: &Fr) -> (r: Fr)
    ensures
        r.val() == fneg(a.val()),
{
    let s = -Scalar::from_bytes_mod_order(a.bytes);
    Fr { bytes: s.to_bytes() }
}

/// Relies on `Scalar::invert`, which is defined for a nonzero scalar only.
#[verifier::external_body]
fn dalek_invert(a: &Fr) -> (r: Fr)
    requires
        a.val() != 0,
    ensures
        fmul(r.val(), a.val()) == 1,
{
    Fr { bytes: Scalar::from_bytes_mod_order(a.bytes).invert().to_bytes() }
}

/// Relies on `Scalar::batch_invert`: each nonzero input is replaced by its
/// inverse.
#[verifier::external_body]
fn dalek_batch_invert(v: &mut Vec<Fr>)
    requires
        forall|i: int| 0 <= i < old(v)@.len() ==> (#[trigger] old(v)@[i]).val() != 0,
    ensures
        final(v)@.len() == old(v)@.len(),
        forall|i: int|
            0 <= i < old(v)@.len() ==> fmul((#[trigger] final(v)@[i]).val(), old(v)@[i].val()) == 1,
{
    let mut s: Vec<Scalar> = v.iter().map(|x| Scalar::from_bytes_mod_order(x.bytes)).collect();
    Scalar::batch_invert(&mut s);
    *v = s.iter().map(|x| Fr { bytes: x.to_bytes() }).collect();
}

/// Relies on `PartialEq` for `Scalar`: two reduced scalars are equal exactly
/// when they encode the same residue.
#[verifier::external_body]
fn dalek_eq(a: &Fr, b: &Fr) -> (r: bool)
    ensures
        r == (a.val() == b.val()),
{
    Scalar::from_bytes_mod_order(a.bytes) == Scalar::from_bytes_mod_order(b.bytes)
}

/// A string of zero bytes encodes zero.
proof fn lemma_le_val_zero(s: Seq<u8>)
    requires
        forall|j: int| 0 <= j < s.len() ==> s[j] == 0,
    ensures
        le_val(s) == 0,
    decreases s.len(),
{
    if s.len() > 0 {
        lemma_le_val_zero(s.subrange(1, s.len() as int));
    }
}

/// Every field element lies in `[0, l)`.
pub broadcast proof fn lemma_val_range(a: Fr)
    ensures
        0 <= #[trigger] a.val() < modulus(),
{
}

/// Multiplying by zero gives zero.
pub broadcast proof fn lemma_fmul_zero_left(x: int)
    ensures
        #[trigger] fmul(0, x) == 0,
{
    assert(0 * x == 0) by (nonlinear_arith);
}

/// Multiplying by one keeps a canonical representative.
pub broadcast proof fn lemma_fmul_one_left(x: int)
    requires
        0 <= x < modulus(),
    ensures
        #[trigger] fmul(1, x) == x,
{
    vstd::arithmetic::div_mod::lemma_small_mod(x as nat, modulus() as nat);
}

/// Adding zero keeps a canonical representative.
pub broadcast proof fn lemma_fadd_zero_right(x: int)
    requires
        0 <= x < modulus(),
    ensures
        #[trigger] fadd(x, 0) == x,
{
    vstd::arithmetic::div_mod::lemma_small_mod(x as nat, modulus() as nat);
}

/// Adding to zero keeps a canonical representative.
pub broadcast proof fn lemma_fadd_zero_left(x: int)
    requires
        0 <= x < modulus(),
    ensures
        #[trigger] fadd(0, x) == x,
{
    vstd::arithmetic::div_mod::lemma_small_mod(x as nat, modulus() as nat);
}

/// Subtracting zero keeps a canonical representative.
pub broadcast proof fn lemma_fsub_zero_right(x: int)
    requires
        0 <= x < modulus(),
    ensures
        #[trigger] fsub(x, 0) == x,
{
    vstd::arithmetic::div_mod::lemma_small_mod(x as nat, modulus() as nat);
}

/// Two canonical representatives differ by zero exactly when they are equal.
pub proof fn lemma_fsub_zero_iff(a: int, b: int)
    requires
        0 <= a < modulus(),
        0 <= b < modulus(),
    ensures
        (fsub(a, b) == 0) == (a == b),
{
    let m = modulus();
    if a >= b {
        vstd::arithmetic::div_mod::lemma_small_mod((a - b) as nat, m as nat);
    } else {
        vstd::arithmetic::div_mod::lemma_mod_add_multiples_vanish(a - b, m);
        vstd::arithmetic::div_mod::lemma_small_mod((m + (a - b)) as nat, m as nat);
    }
}

/// Adding `b` back after taking it off gives a canonical value back.
pub proof fn lemma_fadd_fsub_cancel(b: int, x: int)
    requires
        0 <= x < modulus(),
    ensures
        fadd(b, fsub(x, b)) == x,
{
    let m = modulus();
    vstd::arithmetic::div_mod::lemma_add_mod_noop(b, x - b, m);
    vstd::arithmetic::div_mod::lemma_add_mod_noop(b, (x - b) % m, m);
    vstd::arithmetic::div_mod::lemma_mod_twice(x - b, m);
    vstd::arithmetic::div_mod::lemma_small_mod(x as nat, m as nat);
    vstd::arithmetic::div_mod::lemma_mod_mod(b, m, 1);
    assert((b % m + (x - b) % m) % m == (b + (x - b)) % m);
}

/// An element plus its negation is zero.
pub proof fn lemma_fadd_fneg(b: int)
    ensures
        fadd(b, fneg(b)) == 0,
{
    lemma_fadd_fsub_cancel(b, 0);
    assert(fsub(0, b) == fneg(b));
}

/// Multiplying by `x` and then by its inverse `z` gives back a canonical `n`.
pub proof fn lemma_mul_inv_cancel(n: int, x: int, z: int)
    requires
        0 <= n < modulus(),
        fmul(x, z) == 1,
    ensures
        fmul(fmul(n, x), z) == n,
{
    let m = modulus();
    vstd::arithmetic::div_mod::lemma_mul_mod_noop_left(n * x, z, m);
    vstd::arithmetic::div_mod::lemma_mul_mod_noop_right(n, x * z, m);
    assert((n * x) * z == n * (x * z)) by (nonlinear_arith);
    vstd::arithmetic::div_mod::lemma_small_mod(n as nat, m as nat);
}

/// The field operations give canonical representatives.
pub broadcast proof fn lemma_ops_range(a: int, b: int)
    ensures
        0 <= #[trigger] fadd(a, b) < modulus(),
        0 <= #[trigger] fmul(a, b) < modulus(),
        0 <= #[trigger] fsub(a, b) < modulus(),
        0 <= #[trigger] fneg(a) < modulus(),
{
}

/// The arithmetic facts that the rest of the crate uses unprompted.
pub broadcast group group_field {
    lemma_val_range,
    lemma_fmul_zero_left,
    lemma_fmul_one_left,
    lemma_fadd_zero_right,
    lemma_fadd_zero_left,
    lemma_fsub_zero_right,
    lemma_ops_range,
}

impl Fr {
    /// The canonical representative of this element, in `[0, l)`.
    pub closed spec fn val(&self) -> int {
        (le_val(self.bytes@) as int) % modulus()
    }

    /// The additive identity.
    pub fn zero() -> (r: Fr)
        ensures
            r.val() == 0,
    {
        encode_u128(0)
    }

    /// The multiplicative identity.
    pub fn one() -> (r: Fr)
        ensures
            r.val() == 1,
    {
        encode_u128(1)
    }

    /// The element `x`.
    pub fn from_u64(x: u64) -> (r: Fr)
        ensures
            r.val() == x as int,
    {
        encode_u128(x as u128)
    }

    /// The element `x`.
    pub fn from_u128(x: u128) -> (r: Fr)
        ensures
            r.val() == x as int,
    {
        encode_u128(x)
    }

    /// The element that a 256-bit little-endian integer is congruent to.
    pub fn from_bytes_mod_order(bytes: [u8; 32]) -> (r: Fr)
        ensures
            r.val() == (le_val(bytes@) as int) % modulus(),
    {
        dalek_reduce(bytes)
    }

    /// The element that `bytes` encodes, if it is the canonical encoding of
    /// an integer below the order.
    pub fn from_canonical_bytes(bytes: [u8; 32]) -> (r: Option<Fr>)
        ensures
            r is Some <==> le_val(bytes@) < modulus(),
            r matches Some(x) ==> x.val() == le_val(bytes@),
    {
        dalek_from_canonical(bytes)
    }

    /// The canonical little-endian encoding.
    pub fn to_bytes(&self) -> (r: [u8; 32])
        ensures
            le_val(r@) as int % modulus() == self.val(),
    {
        self.bytes
    }

    /// Whether every byte of the encoding is zero, which makes this element
    /// zero; a cheap test that needs no reduction.
    fn encodes_zero(&self) -> (r: bool)
        ensures
            r ==> self.val() == 0,
    {
        let mut i: usize = 0;
        while i < 32
            invariant
                i <= 32,
                forall|j: int| 0 <= j < i ==> self.bytes@[j] == 0,
            decreases 32 - i,
        {
            if self.bytes[i] != 0 {
                return false;
            }
            i = i + 1;
        }
        proof {
            lemma_le_val_zero(self.bytes@);
        }
        true
    }

    /// `self + o`.
    pub fn add(&self, o: &Fr) -> (r: Fr)
        ensures
            r.val() == fadd(self.val(), o.val()),
    {
        if self.encodes_zero() {
            proof {
                lemma_val_range(*o);
                lemma_fadd_zero_left(o.val());
            }
            *o
        } else if o.encodes_zero() {
            proof {
                lemma_val_range(*self);
                lemma_fadd_zero_right(self.val());
            }
            *self
        } else {
            dalek_add(self, o)
        }
    }

    /// `self - o`.
    pub fn sub(&self, o: &Fr) -> (r: Fr)
        ensures
            r.val() == fsub(self.val(), o.val()),
    {
        dalek_sub(self, o)
    }

    /// `self * o`.
    pub fn mul(&self, o: &Fr) -> (r: Fr)
        ensures
            r.val() == fmul(self.val(), o.val()),
    {
        if self.encodes_zero() {
            proof {
                lemma_fmul_zero_left(o.val());
            }
            *self
        } else if o.encodes_zero() {
            proof {
                assert(self.val() * 0 == 0);
                vstd::arithmetic::div_mod::lemma_small_mod(0, modulus() as nat);
            }
            *o
        } else {
            dalek_mul(self, o)
        }
    }

    /// `-self`.
    pub fn neg(&self) -> (r: Fr)
        ensures
            r.val() == fneg(self.val()),
    {
        dalek_neg(self)
    }

    /// `self * self`.
    pub fn square(&self) -> (r: Fr)
        ensures
            r.val() == fsq(self.val()),
    {
        dalek_mul(self, self)
    }

    /// `self^e`, by repeated multiplication.
    pub fn pow(&self, e: u64) -> (r: Fr)
        ensures
            r.val() == fpow(self.val(), e as nat),
    {
        let mut r = Fr::one();
        let mut i: u64 = 0;
        while i < e
            invariant
                i <= e,
                r.val() == fpow(self.val(), i as nat),
            decreases e - i,
        {
            r = r.mul(self);
            i = i + 1;
        }
        r
    }

    /// Whether the two elements are equal.
    pub fn equals(&self, o: &Fr) -> (r: bool)
        ensures
            r == (self.val() == o.val()),
    {
        dalek_eq(self, o)
    }

    /// Whether this is the zero element.
    pub fn is_zero(&self) -> (r: bool)
        ensures
            r == (self.val() == 0),
    {
        if self.encodes_zero() {
            true
        } else {
            let z = Fr::zero();
            dalek_eq(self, &z)
        }
    }

    /// The multiplicative inverse, or `None` for zero.
    pub fn inv(&self) -> (r: Option<Fr>)
        ensures
            r.is_none() == (self.val() == 0),
            r matches Some(x) ==> fmul(x.val(), self.val()) == 1 && x.val() == finv(self.val()),
    {
        if self.is_zero() {
            None
        } else {
            let x = dalek_invert(self);
            proof {
                lemma_finv(self.val(), x.val());
            }
            Some(x)
        }
    }
}

/// Replaces every element by its inverse with one field inversion.
pub fn batch_inversion(v: &mut Vec<Fr>)
    requires
        forall|i: int| 0 <= i < old(v)@.len() ==> (#[trigger] old(v)@[i]).val() != 0,
    ensures
        final(v)@.len() == old(v)@.len(),
        forall|i: int|
            0 <= i < old(v)@.len() ==> (#[trigger] final(v)@[i]).val() == finv(old(v)@[i].val())
                && fmul(final(v)@[i].val(), old(v)@[i].val()) == 1,
{
    let ghost v0 = v@;
    dalek_batch_invert(v);
    assert forall|i: int| 0 <= i < v0.len() implies (#[trigger] v@[i]).val() == finv(
        v0[i].val(),
    ) by {
        lemma_finv(v0[i].val(), v@[i].val());
    }
}

} // verus!
