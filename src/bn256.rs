//! The scalar field of the BN254 curve, with its arithmetic done by
//! halo2curves.

use vstd::prelude::*;
use crate::field::{le_value, lemma_le_value_nonneg, CurveAffine, FftGroup, PrimeField};

verus! {

/// The order of the BN254 scalar field.
pub open spec fn fr_modulus() -> int {
    21888242871839275222246405745257275088548364400416034343698204186575808495617int
}

/// Relies on halo2curves' `bn256::Fr::from_bytes` and `to_bytes`: a byte
/// string is accepted exactly when its little-endian value is below the order,
/// and then converts back to the same bytes.
#[verifier::external_body]
fn fr_canonical_bytes(b: &[u8; 32]) -> (r: Option<[u8; 32]>)
    ensures
        r.is_some() <==> le_value(b@) < fr_modulus(),
        r.is_some() ==> r.unwrap()@ == b@,
{
    let x: Option<halo2curves::bn256::Fr> = halo2curves::bn256::Fr::from_bytes(b).into();
    match x {
        Some(y) => Some(y.to_bytes()),
        None => None,
    }
}

/// Relies on halo2curves' `Fr::from(u64)`: the integer reduced modulo the order.
#[verifier::external_body]
fn fr_from_u64_bytes(v: u64) -> (r: [u8; 32])
    ensures
        le_value(r@) == v as int % fr_modulus(),
{
    halo2curves::bn256::Fr::from(v).to_bytes()
}

/// Relies on halo2curves' `Fr` addition: the sum modulo the order.
#[verifier::external_body]
fn fr_add_bytes(a: &[u8; 32], b: &[u8; 32]) -> (r: [u8; 32])
    requires
        le_value(a@) < fr_modulus(),
        le_value(b@) < fr_modulus(),
    ensures
        le_value(r@) == (le_value(a@) + le_value(b@)) % fr_modulus(),
{
    let x = halo2curves::bn256::Fr::from_bytes(a).unwrap();
    let y = halo2curves::bn256::Fr::from_bytes(b).unwrap();
    (x + y).to_bytes()
}

/// Relies on halo2curves' `Fr` subtraction: the difference modulo the order.
#[verifier::external_body]
fn fr_sub_bytes(a: &[u8; 32], b: &[u8; 32]) -> (r: [u8; 32])
    requires
        le_value(a@) < fr_modulus(),
        le_value(b@) < fr_modulus(),
    ensures
        le_value(r@) == (le_value(a@) - le_value(b@)) % fr_modulus(),
{
    let x = halo2curves::bn256::Fr::from_bytes(a).unwrap();
    let y = halo2curves::bn256::Fr::from_bytes(b).unwrap();
    (x - y).to_bytes()
}

/// Relies on halo2curves' `Fr` negation: the additive inverse modulo the order.
#[verifier::external_body]
fn fr_neg_bytes(a: &[u8; 32]) -> (r: [u8; 32])
    requires
        le_value(a@) < fr_modulus(),
    ensures
        le_value(r@) == (-le_value(a@)) % fr_modulus(),
{
    let x = halo2curves::bn256::Fr::from_bytes(a).unwrap();
    (-x).to_bytes()
}

/// Relies on halo2curves' `Fr` multiplication: the product modulo the order.
#[verifier::external_body]
fn fr_mul_bytes(a: &[u8; 32], b: &[u8; 32]) -> (r: [u8; 32])
    requires
        le_value(a@) < fr_modulus(),
        le_value(b@) < fr_modulus(),
    ensures
        le_value(r@) == (le_value(a@) * le_value(b@)) % fr_modulus(),
{
    let x = halo2curves::bn256::Fr::from_bytes(a).unwrap();
    let y = halo2curves::bn256::Fr::from_bytes(b).unwrap();
    (x * y).to_bytes()
}

/// Relies on ff's `Field::pow_vartime` for halo2curves' `Fr`: the power
/// modulo the order.
#[verifier::external_body]
fn fr_pow_bytes(a: &[u8; 32], e: u64) -> (r: [u8; 32])
    requires
        le_value(a@) < fr_modulus(),
    ensures
        le_value(r@) == vstd::arithmetic::power::pow(le_value(a@), e as nat) % fr_modulus(),
{
    let x = halo2curves::bn256::Fr::from_bytes(a).unwrap();
    halo2curves::ff::Field::pow_vartime(&x, [e]).to_bytes()
}

/// Relies on ff's `Field::invert` for halo2curves' `Fr`: it fails exactly on
/// zero, and otherwise gives the element whose product with the input is one.
#[verifier::external_body]
fn fr_invert_bytes(a: &[u8; 32]) -> (r: Option<[u8; 32]>)
    requires
        le_value(a@) < fr_modulus(),
    ensures
        r.is_some() <==> le_value(a@) != 0,
        r.is_some() ==> le_value(r.unwrap()@) < fr_modulus(),
        r.is_some() ==> (le_value(a@) * le_value(r.unwrap()@)) % fr_modulus() == 1,
{
    let x = halo2curves::bn256::Fr::from_bytes(a).unwrap();
    let y: Option<halo2curves::bn256::Fr> = halo2curves::ff::Field::invert(&x).into();
    match y {
        Some(z) => Some(z.to_bytes()),
        None => None,
    }
}

/// Relies on ff's `PrimeField::S` for halo2curves' `Fr`: the two-adicity of
/// the field, which for this order is 28.
#[verifier::external_body]
fn fr_two_adicity() -> (r: u32)
    ensures
        r == 28,
{
    <halo2curves::bn256::Fr as halo2curves::ff::PrimeField>::S
}

/// halo2curves' two-adic root of unity for `Fr`: its multiplicative
/// generator 7 raised to `t = (r - 1) / 2^28`.
pub open spec fn fr_root_of_unity() -> int {
    vstd::arithmetic::power::pow(7, ((fr_modulus() - 1) / 0x1000_0000) as nat)
}

/// `x` is a canonical inverse of `fr_root_of_unity()`.
pub open spec fn is_root_of_unity_inv(x: int) -> bool {
    0 <= x < fr_modulus() && (x * fr_root_of_unity()) % fr_modulus() == 1
}

/// The inverse of `fr_root_of_unity()`: the canonical value whose product
/// with it is one.
pub open spec fn fr_root_of_unity_inv() -> int {
    choose|x: int| #[trigger] is_root_of_unity_inv(x)
}

/// Relies on ff's `PrimeField::ROOT_OF_UNITY_INV` for halo2curves' `Fr`: the
/// inverse of `ROOT_OF_UNITY`, which ff documents as the generator (of
/// order `r - 1`; 7 here) raised to `t`, so the inverse has order `2^28`
/// and its `2^27`-th power is minus one.
#[verifier::external_body]
fn fr_root_of_unity_inv_bytes() -> (r: [u8; 32])
    ensures
        le_value(r@) < fr_modulus(),
        (le_value(r@) * fr_root_of_unity()) % fr_modulus() == 1,
        vstd::arithmetic::power::pow(le_value(r@), vstd::arithmetic::power2::pow2(27)) % fr_modulus()
            == fr_modulus() - 1,
{
    <halo2curves::bn256::Fr as halo2curves::ff::PrimeField>::ROOT_OF_UNITY_INV.to_bytes()
}

/// Relies on ff's `BatchInvert::batch_invert` for halo2curves' `Fr`: every
/// nonzero element is replaced by its inverse, zeros are left as zero.
#[verifier::external_body]
fn fr_batch_invert_bytes(v: &mut Vec<[u8; 32]>)
    requires
        forall|i: int| 0 <= i < old(v)@.len() ==> #[trigger] le_value(old(v)@[i]@) < fr_modulus(),
    ensures
        final(v)@.len() == old(v)@.len(),
        forall|i: int| 0 <= i < old(v)@.len() ==> #[trigger] le_value(final(v)@[i]@) < fr_modulus(),
        forall|i: int|
            0 <= i < old(v)@.len() && le_value(old(v)@[i]@) == 0 ==> #[trigger] le_value(final(v)@[i]@) == 0,
        forall|i: int|
            0 <= i < old(v)@.len() && le_value(old(v)@[i]@) != 0 ==> (le_value(old(v)@[i]@) * #[trigger] le_value(
                final(v)@[i]@,
            )) % fr_modulus() == 1,
{
    let mut elems: Vec<halo2curves::bn256::Fr> =
        v.iter().map(|b| halo2curves::bn256::Fr::from_bytes(b).unwrap()).collect();
    halo2curves::ff::BatchInvert::batch_invert(elems.iter_mut());
    for (b, e) in v.iter_mut().zip(elems.iter()) {
        *b = e.to_bytes();
    }
}

/// An element of the BN254 scalar field, held as its canonical little-endian
/// bytes.
#[derive(Clone, Copy, Debug)]
pub struct Fr {
    repr: [u8; 32],
}

impl Fr {
    #[verifier::type_invariant]
    spec fn canonical(self) -> bool {
        le_value(self.repr@) < fr_modulus()
    }

    /// The element whose canonical little-endian bytes are `bytes`, if they
    /// are canonical.
    pub fn from_bytes(bytes: &[u8; 32]) -> (r: Option<Fr>)
        ensures
            r.is_some() <==> le_value(bytes@) < fr_modulus(),
            r.is_some() ==> r.unwrap().value() == le_value(bytes@),
    {
        match fr_canonical_bytes(bytes) {
            Some(b) => {
                proof {
                    lemma_canonical(b@);
                }
                Some(Fr { repr: b })
            },
            None => None,
        }
    }

    /// The canonical little-endian bytes.
    pub fn to_bytes(&self) -> (r: [u8; 32])
        ensures
            le_value(r@) == self.value(),
    {
        proof {
            use_type_invariant(self);
            lemma_canonical(self.repr@);
        }
        self.repr
    }
}

impl PrimeField for Fr {
    open spec fn modulus() -> int {
        fr_modulus()
    }

    closed spec fn value(&self) -> int {
        le_value(self.repr@) % fr_modulus()
    }

    proof fn lemma_value_bound(x: Self) {
    }

    proof fn lemma_modulus() {
    }

    open spec fn two_adicity() -> nat {
        28
    }

    fn two_adicity_s() -> (r: u32) {
        fr_two_adicity()
    }

    open spec fn root_of_unity_inv_value() -> int {
        fr_root_of_unity_inv()
    }

    fn root_of_unity_inv() -> (r: Self) {
        let b = fr_root_of_unity_inv_bytes();
        proof {
            lemma_canonical(b@);
            lemma_root_of_unity_inv_unique(le_value(b@));
        }
        Fr { repr: b }
    }

    fn zero() -> (r: Self) {
        Fr::from_u64(0)
    }

    fn one() -> (r: Self) {
        Fr::from_u64(1)
    }

    fn from_u64(v: u64) -> (r: Self) {
        let b = fr_from_u64_bytes(v);
        proof {
            lemma_canonical(b@);
        }
        Fr { repr: b }
    }

    fn add(&self, o: &Self) -> (r: Self) {
        proof {
            use_type_invariant(self);
            use_type_invariant(o);
            lemma_canonical(self.repr@);
            lemma_canonical(o.repr@);
        }
        let r = Fr { repr: fr_add_bytes(&self.repr, &o.repr) };
        proof {
            lemma_canonical(r.repr@);
        }
        r
    }

    fn sub(&self, o: &Self) -> (r: Self) {
        proof {
            use_type_invariant(self);
            use_type_invariant(o);
            lemma_canonical(self.repr@);
            lemma_canonical(o.repr@);
        }
        let r = Fr { repr: fr_sub_bytes(&self.repr, &o.repr) };
        proof {
            lemma_canonical(r.repr@);
        }
        r
    }

    fn neg(&self) -> (r: Self) {
        proof {
            use_type_invariant(self);
            lemma_canonical(self.repr@);
        }
        let r = Fr { repr: fr_neg_bytes(&self.repr) };
        proof {
            lemma_canonical(r.repr@);
        }
        r
    }

    fn mul(&self, o: &Self) -> (r: Self) {
        proof {
            use_type_invariant(self);
            use_type_invariant(o);
            lemma_canonical(self.repr@);
            lemma_canonical(o.repr@);
        }
        let r = Fr { repr: fr_mul_bytes(&self.repr, &o.repr) };
        proof {
            lemma_canonical(r.repr@);
        }
        r
    }

    fn pow_vartime(&self, e: u64) -> (r: Self) {
        proof {
            use_type_invariant(self);
            lemma_canonical(self.repr@);
        }
        let r = Fr { repr: fr_pow_bytes(&self.repr, e) };
        proof {
            lemma_canonical(r.repr@);
        }
        r
    }

    fn invert(&self) -> (r: Option<Self>) {
        proof {
            use_type_invariant(self);
            lemma_canonical(self.repr@);
        }
        match fr_invert_bytes(&self.repr) {
            Some(b) => {
                proof {
                    lemma_canonical(b@);
                }
                Some(Fr { repr: b })
            },
            None => None,
        }
    }

    fn batch_invert(v: &mut Vec<Self>) {
        let ghost v0 = v@;
        let mut bytes: Vec<[u8; 32]> = Vec::new();
        let mut i: usize = 0;
        while i < v.len()
            invariant
                v@ == v0,
                i <= v0.len(),
                bytes@.len() == i,
                forall|k: int| 0 <= k < i ==> #[trigger] le_value(bytes@[k]@) == v0[k].value(),
                forall|k: int| 0 <= k < i ==> #[trigger] le_value(bytes@[k]@) < fr_modulus(),
            decreases v0.len() - i,
        {
            let b = v[i].to_bytes();
            proof {
                Fr::lemma_value_bound(v0[i as int]);
            }
            bytes.push(b);
            i = i + 1;
        }
        fr_batch_invert_bytes(&mut bytes);
        let mut out: Vec<Fr> = Vec::new();
        let mut j: usize = 0;
        while j < bytes.len()
            invariant
                bytes@.len() == v0.len(),
                j <= bytes@.len(),
                out@.len() == j,
                forall|k: int| 0 <= k < bytes@.len() ==> #[trigger] le_value(bytes@[k]@) < fr_modulus(),
                forall|k: int| 0 <= k < j ==> #[trigger] out@[k].value() == le_value(bytes@[k]@),
            decreases bytes@.len() - j,
        {
            let b = bytes[j];
            proof {
                lemma_canonical(b@);
            }
            out.push(Fr { repr: b });
            j = j + 1;
        }
        *v = out;
    }

    fn to_repr(&self) -> (r: [u8; 32]) {
        self.to_bytes()
    }
}

impl FftGroup<Fr> for Fr {
    open spec fn group_value(&self) -> int {
        self.value()
    }

    proof fn lemma_group_value_bound(x: Self) {
    }

    fn identity() -> (r: Self) {
        Fr::zero()
    }

    fn add_elem(&self, o: &Self) -> (r: Self) {
        self.add(o)
    }

    fn sub_elem(&self, o: &Self) -> (r: Self) {
        self.sub(o)
    }

    fn double(&self) -> (r: Self) {
        self.add(self)
    }

    fn scale(&self, s: &Fr) -> (r: Self) {
        self.mul(s)
    }
}

/// Any canonical inverse of the root is `fr_root_of_unity_inv()`: inverses
/// modulo the order are unique.
proof fn lemma_root_of_unity_inv_unique(v: int)
    requires
        0 <= v < fr_modulus(),
        (v * fr_root_of_unity()) % fr_modulus() == 1,
    ensures
        fr_root_of_unity_inv() == v,
{
    let m = fr_modulus();
    let g = fr_root_of_unity();
    assert(is_root_of_unity_inv(v));
    let c = fr_root_of_unity_inv();
    assert(0 <= c < m && (c * g) % m == 1);
    // v = v (c g) = c (v g) = c  (mod m)
    crate::field::lemma_add_mul_mod(v, c * g, m);
    crate::field::lemma_add_mul_mod(c, v * g, m);
    vstd::arithmetic::div_mod::lemma_small_mod(v as nat, m as nat);
    vstd::arithmetic::div_mod::lemma_small_mod(c as nat, m as nat);
    assert(v * (c * g) == c * (v * g)) by (nonlinear_arith);
    assert((v % m) * 1 == v);
    assert((c % m) * 1 == c);
}

proof fn lemma_canonical(b: Seq<u8>)
    ensures
        le_value(b) < fr_modulus() ==> le_value(b) % fr_modulus() == le_value(b),
{
    lemma_le_value_nonneg(b);
    if le_value(b) < fr_modulus() {
        vstd::arithmetic::div_mod::lemma_small_mod(le_value(b) as nat, fr_modulus() as nat);
    }
}

impl CurveAffine for Fr {
    type Scalar = Fr;

    type Curve = Fr;

    open spec fn point_value(&self) -> int {
        self.value()
    }

    proof fn lemma_point_value_bound(p: Self) {
    }

    fn affine_identity() -> (r: Self) {
        Fr::zero()
    }

    fn to_curve(&self) -> (r: Fr) {
        *self
    }

    fn add_affine(&self, o: &Self) -> (r: Fr) {
        self.add(o)
    }

    fn add_to_curve(&self, c: &Fr) -> (r: Fr) {
        c.add(self)
    }

    fn from_curve(c: &Fr) -> (r: Self) {
        *c
    }
}

} // verus!
