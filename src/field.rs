//! The capability layer: what a prime field and a group with scalar action
//! offer, modelled as integers modulo the field's order.

use vstd::prelude::*;

verus! {

/// The integer that a little-endian byte string stands for.
pub open spec fn le_value(b: Seq<u8>) -> int
    decreases b.len(),
{
    if b.len() == 0 {
        0
    } else {
        b[0] as int + 256 * le_value(b.drop_first())
    }
}

pub proof fn lemma_le_value_nonneg(b: Seq<u8>)
    ensures
        0 <= le_value(b),
    decreases b.len(),
{
    if b.len() > 0 {
        lemma_le_value_nonneg(b.drop_first());
    }
}

/// A little-endian byte string is its first `k` bytes plus `256^k` times
/// the rest.
pub proof fn lemma_le_value_split(b: Seq<u8>, k: nat)
    requires
        k <= b.len(),
    ensures
        le_value(b) == le_value(b.take(k as int)) + vstd::arithmetic::power::pow(256, k) * le_value(
            b.skip(k as int),
        ),
    decreases k,
{
    vstd::arithmetic::power::lemma_pow0(256);
    if k == 0 {
        assert(b.take(0) =~= Seq::<u8>::empty());
        assert(b.skip(0) =~= b);
    } else {
        lemma_le_value_split(b.drop_first(), (k - 1) as nat);
        assert(b.take(k as int).drop_first() =~= b.drop_first().take(k - 1));
        assert(b.drop_first().skip(k - 1) =~= b.skip(k as int));
        vstd::arithmetic::power::lemma_pow_adds(256, 1, (k - 1) as nat);
        vstd::arithmetic::power::lemma_pow1(256);
        let t = le_value(b.drop_first().take(k - 1));
        let r = le_value(b.skip(k as int));
        let q = vstd::arithmetic::power::pow(256, (k - 1) as nat);
        assert(256 * (t + q * r) == 256 * t + (256 * q) * r) by (nonlinear_arith);
    }
}

/// A string of `k` bytes stands for less than `256^k`.
pub proof fn lemma_le_value_bound(b: Seq<u8>)
    ensures
        0 <= le_value(b) < vstd::arithmetic::power::pow(256, b.len()),
    decreases b.len(),
{
    vstd::arithmetic::power::lemma_pow0(256);
    if b.len() > 0 {
        lemma_le_value_bound(b.drop_first());
        vstd::arithmetic::power::lemma_pow_adds(256, 1, (b.len() - 1) as nat);
        vstd::arithmetic::power::lemma_pow1(256);
        let q = vstd::arithmetic::power::pow(256, (b.len() - 1) as nat);
        let r = le_value(b.drop_first());
        assert(b[0] + 256 * r < 256 * q) by (nonlinear_arith)
            requires 0 <= b[0] < 256, 0 <= r < q;
    }
}

/// Trailing zero bytes do not change the value.
pub proof fn lemma_le_value_zeros(b: Seq<u8>, z: Seq<u8>)
    requires
        forall|i: int| 0 <= i < z.len() ==> z[i] == 0,
    ensures
        le_value(b + z) == le_value(b),
    decreases b.len() + z.len(),
{
    if b.len() > 0 {
        assert((b + z).drop_first() =~= b.drop_first() + z);
        lemma_le_value_zeros(b.drop_first(), z);
    } else if z.len() > 0 {
        assert(b + z =~= z);
        assert(z.drop_first() =~= Seq::<u8>::empty() + z.drop_first());
        lemma_le_value_zeros(Seq::<u8>::empty(), z.drop_first());
    } else {
        assert(b + z =~= b);
    }
}

/// `256^k = 2^(8k)`.
pub proof fn lemma_pow256(k: nat)
    ensures
        vstd::arithmetic::power::pow(256, k) == vstd::arithmetic::power2::pow2(8 * k),
{
    vstd::arithmetic::power::lemma_pow_multiplies(2, 8, k);
    vstd::arithmetic::power2::lemma2_to64();
    vstd::arithmetic::power2::lemma_pow2(8);
    vstd::arithmetic::power2::lemma_pow2(8 * k);
}

/// A prime field whose elements are modelled by their canonical integer in
/// `0..modulus()`; each operation is the integer operation reduced modulo
/// `modulus()`.
pub trait PrimeField: Sized + Copy {
    /// The order of the field.
    spec fn modulus() -> int;

    /// The canonical integer of an element.
    spec fn value(&self) -> int;

    proof fn lemma_value_bound(x: Self)
        ensures
            1 < Self::modulus(),
            0 <= x.value() < Self::modulus(),
    ;

    /// The field is of odd order.
    proof fn lemma_modulus()
        ensures
            2 < Self::modulus(),
            Self::modulus() % 2 == 1,
    ;

    /// The two-adicity `s` of the field: `2^s` is the largest power of two
    /// dividing `modulus() - 1`.
    spec fn two_adicity() -> nat;

    fn two_adicity_s() -> (r: u32)
        ensures
            r == Self::two_adicity(),
    ;

    /// The integer of the inverse of the field's primitive `2^s`-th root of
    /// unity.
    spec fn root_of_unity_inv_value() -> int;

    /// The inverse of the field's primitive `2^s`-th root of unity.
    fn root_of_unity_inv() -> (r: Self)
        ensures
            r.value() == Self::root_of_unity_inv_value(),
            Self::two_adicity() >= 1,
            vstd::arithmetic::power::pow(
                Self::root_of_unity_inv_value(),
                vstd::arithmetic::power2::pow2((Self::two_adicity() - 1) as nat),
            ) % Self::modulus() == Self::modulus() - 1,
    ;

    fn zero() -> (r: Self)
        ensures
            r.value() == 0,
    ;

    fn one() -> (r: Self)
        ensures
            r.value() == 1,
    ;

    fn from_u64(v: u64) -> (r: Self)
        ensures
            r.value() == v as int % Self::modulus(),
    ;

    fn add(&self, o: &Self) -> (r: Self)
        ensures
            r.value() == (self.value() + o.value()) % Self::modulus(),
    ;

    fn sub(&self, o: &Self) -> (r: Self)
        ensures
            r.value() == (self.value() - o.value()) % Self::modulus(),
    ;

    fn neg(&self) -> (r: Self)
        ensures
            r.value() == (-self.value()) % Self::modulus(),
    ;

    fn mul(&self, o: &Self) -> (r: Self)
        ensures
            r.value() == (self.value() * o.value()) % Self::modulus(),
    ;

    fn pow_vartime(&self, e: u64) -> (r: Self)
        ensures
            r.value() == vstd::arithmetic::power::pow(self.value(), e as nat) % Self::modulus(),
    ;

    /// The multiplicative inverse, which exists exactly for nonzero elements.
    fn invert(&self) -> (r: Option<Self>)
        ensures
            r.is_some() <==> self.value() != 0,
            r.is_some() ==> (self.value() * r.unwrap().value()) % Self::modulus() == 1,
    ;

    /// Inverts every nonzero element in place; zeros stay zero.
    fn batch_invert(v: &mut Vec<Self>)
        ensures
            final(v)@.len() == old(v)@.len(),
            forall|i: int|
                0 <= i < old(v)@.len() && old(v)@[i].value() == 0 ==> #[trigger] final(v)@[i].value() == 0,
            forall|i: int|
                0 <= i < old(v)@.len() && old(v)@[i].value() != 0 ==> (old(v)@[i].value()
                    * #[trigger] final(v)@[i].value()) % Self::modulus() == 1,
    ;

    /// The canonical little-endian representation.
    fn to_repr(&self) -> (r: [u8; 32])
        ensures
            le_value(r@) == self.value(),
    ;
}

/// A group on which the scalar field `S` acts, such as an elliptic-curve group
/// of order `S::modulus()` or the field itself. An element is modelled by an
/// integer in `0..S::modulus()`: addition is addition modulo the order, and the
/// action of a scalar is multiplication by its value.
pub trait FftGroup<S: PrimeField>: Sized + Copy {
    spec fn group_value(&self) -> int;

    proof fn lemma_group_value_bound(x: Self)
        ensures
            0 <= x.group_value() < S::modulus(),
    ;

    fn identity() -> (r: Self)
        ensures
            r.group_value() == 0,
    ;

    fn add_elem(&self, o: &Self) -> (r: Self)
        ensures
            r.group_value() == (self.group_value() + o.group_value()) % S::modulus(),
    ;

    fn sub_elem(&self, o: &Self) -> (r: Self)
        ensures
            r.group_value() == (self.group_value() - o.group_value()) % S::modulus(),
    ;

    fn double(&self) -> (r: Self)
        ensures
            r.group_value() == (2 * self.group_value()) % S::modulus(),
    ;

    fn scale(&self, s: &S) -> (r: Self)
        ensures
            r.group_value() == (self.group_value() * s.value()) % S::modulus(),
    ;
}

/// A point in affine form, with its scalar field and its projective form
/// `Curve`. Both forms are modelled like `FftGroup` elements.
pub trait CurveAffine: Sized + Copy {
    type Scalar: PrimeField;

    type Curve: FftGroup<Self::Scalar>;

    spec fn point_value(&self) -> int;

    proof fn lemma_point_value_bound(p: Self)
        ensures
            0 <= p.point_value() < Self::Scalar::modulus(),
    ;

    fn affine_identity() -> (r: Self)
        ensures
            r.point_value() == 0,
    ;

    fn to_curve(&self) -> (r: Self::Curve)
        ensures
            r.group_value() == self.point_value(),
    ;

    /// The sum of two affine points, in projective form.
    fn add_affine(&self, o: &Self) -> (r: Self::Curve)
        ensures
            r.group_value() == (self.point_value() + o.point_value()) % Self::Scalar::modulus(),
    ;

    /// A projective point plus this affine point.
    fn add_to_curve(&self, c: &Self::Curve) -> (r: Self::Curve)
        ensures
            r.group_value() == (c.group_value() + self.point_value()) % Self::Scalar::modulus(),
    ;

    /// The affine form of a projective point.
    fn from_curve(c: &Self::Curve) -> (r: Self)
        ensures
            r.point_value() == c.group_value(),
    ;
}

/// The integers of a sequence of affine points.
pub open spec fn point_values<C: CurveAffine>(s: Seq<C>) -> Seq<int> {
    s.map(|_i: int, x: C| x.point_value())
}

/// The canonical integers of a sequence of field elements.
pub open spec fn values<S: PrimeField>(s: Seq<S>) -> Seq<int> {
    s.map(|_i: int, x: S| x.value())
}

/// The integers of a sequence of group elements.
pub open spec fn group_values<S: PrimeField, G: FftGroup<S>>(s: Seq<G>) -> Seq<int> {
    s.map(|_i: int, x: G| x.group_value())
}

/// Horner's step with reduced operands: `((a mod p) * x + c) mod p` is
/// `(c + x * a) mod p`.
pub proof fn lemma_horner_step_mod(a: int, x: int, c: int, p: int)
    requires
        p > 0,
    ensures
        (((a % p) * x) % p + c) % p == (c + x * a) % p,
{
    vstd::arithmetic::div_mod::lemma_mul_mod_noop_left(a, x, p);
    vstd::arithmetic::div_mod::lemma_add_mod_noop_right((a * x) % p, c, p);
    vstd::arithmetic::div_mod::lemma_add_mod_noop(a * x, c, p);
    assert(a * x == x * a) by (nonlinear_arith);
}

/// Sums and products of reduced operands reduce to the same value.
pub proof fn lemma_add_mul_mod(a: int, b: int, p: int)
    requires
        p > 0,
    ensures
        ((a % p) + (b % p)) % p == (a + b) % p,
        ((a % p) * (b % p)) % p == (a * b) % p,
        ((a % p) - (b % p)) % p == (a - b) % p,
{
    vstd::arithmetic::div_mod::lemma_add_mod_noop(a, b, p);
    vstd::arithmetic::div_mod::lemma_mul_mod_noop(a, b, p);
    vstd::arithmetic::div_mod::lemma_sub_mod_noop(a, b, p);
}

/// Reducing twice is reducing once.
pub proof fn lemma_mod_twice(x: int, m: int)
    requires
        m > 0,
    ensures
        0 <= x % m < m,
        (x % m) % m == x % m,
{
    vstd::arithmetic::div_mod::lemma_mod_bound(x, m);
    vstd::arithmetic::div_mod::lemma_small_mod((x % m) as nat, m as nat);
}

} // verus!
