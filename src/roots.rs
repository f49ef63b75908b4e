//! Sums of powers of roots of unity, and the inverse of the transform.

use vstd::prelude::*;
use vstd::arithmetic::power::pow;
use vstd::arithmetic::power2::pow2;
use crate::field::{lemma_add_mul_mod, lemma_mod_twice, values, PrimeField};
use crate::fft::is_primitive_root_value;
use crate::poly::{lemma_poly_eval_concat, lemma_poly_eval_lincomb, poly_eval};

verus! {

/// `n` ones: `poly_eval(ones(n), x)` is `1 + x + ... + x^(n-1)`.
pub open spec fn ones(n: nat) -> Seq<int> {
    Seq::new(n, |_j: int| 1int)
}

/// The transform of `a` at `w`, reduced: element `j` is `a(w^j) mod m`.
pub open spec fn transform(a: Seq<int>, w: int, m: int) -> Seq<int> {
    Seq::new(a.len(), |j: int| poly_eval(a, pow(w, j as nat)) % m)
}

/// Scaling coefficient `j` by `p^j` evaluates at `p z` instead of `z`.
proof fn lemma_scaled_point(c: Seq<int>, p: int, z: int)
    ensures
        poly_eval(Seq::new(c.len(), |j: int| pow(p, j as nat) * c[j]), z) == poly_eval(c, p * z),
    decreases c.len(),
{
    let s = Seq::new(c.len(), |j: int| pow(p, j as nat) * c[j]);
    if c.len() > 0 {
        let c1 = c.drop_first();
        lemma_scaled_point(c1, p, z);
        let s1 = Seq::new(c1.len(), |j: int| pow(p, j as nat) * c1[j]);
        let t = Seq::new(c1.len(), |j: int| p * (pow(p, j as nat) * c1[j]));
        assert forall|j: int| 0 <= j < c1.len() implies #[trigger] s.drop_first()[j] == t[j] by {
            vstd::arithmetic::power::lemma_pow_adds(p, 1, j as nat);
            vstd::arithmetic::power::lemma_pow1(p);
            assert((1 + j) as nat == (j + 1) as nat);
            assert(pow(p, (j + 1) as nat) * c1[j] == p * (pow(p, j as nat) * c1[j])) by (nonlinear_arith)
                requires pow(p, (j + 1) as nat) == p * pow(p, j as nat);
        }
        assert(s.drop_first() =~= t);
        lemma_poly_eval_scale(s1, p, z);
        assert(t =~= Seq::new(s1.len(), |j: int| p * s1[j]));
        vstd::arithmetic::power::lemma_pow0(p);
        assert(s[0] == c[0]);
        let e = poly_eval(c1, p * z);
        assert(z * (p * e) == (p * z) * e) by (nonlinear_arith);
    }
}

/// Scaling every coefficient scales the value.
proof fn lemma_poly_eval_scale(c: Seq<int>, p: int, z: int)
    ensures
        poly_eval(Seq::new(c.len(), |j: int| p * c[j]), z) == p * poly_eval(c, z),
    decreases c.len(),
{
    let s = Seq::new(c.len(), |j: int| p * c[j]);
    if c.len() > 0 {
        lemma_poly_eval_scale(c.drop_first(), p, z);
        assert(s.drop_first() =~= Seq::new(c.drop_first().len(), |j: int| p * c.drop_first()[j]));
        let e = poly_eval(c.drop_first(), z);
        assert(p * c[0] + z * (p * e) == p * (c[0] + z * e)) by (nonlinear_arith);
    }
}

/// `1 + x + ... + x^(2h-1) = (1 + x^h)(1 + x + ... + x^(h-1))`.
proof fn lemma_geometric_double(x: int, h: nat)
    ensures
        poly_eval(ones(2 * h), x) == (1 + pow(x, h)) * poly_eval(ones(h), x),
{
    assert(ones(2 * h) =~= ones(h) + ones(h));
    lemma_poly_eval_concat(ones(h), ones(h), x);
    let g = poly_eval(ones(h), x);
    assert(g + pow(x, h) * g == (1 + pow(x, h)) * g) by (nonlinear_arith);
}

/// The geometric sum over `2^k` terms vanishes when some `x^(2^e)`, `e < k`,
/// is minus one.
proof fn lemma_geometric_zero(x: int, k: nat, e: nat, m: int)
    requires
        m > 1,
        e < k,
        (pow(x, pow2(e)) + 1) % m == 0,
    ensures
        poly_eval(ones(pow2(k)), x) % m == 0,
    decreases k,
{
    let h = pow2((k - 1) as nat);
    vstd::arithmetic::power2::lemma_pow2_unfold(k);
    lemma_geometric_double(x, h);
    let g = poly_eval(ones(h), x);
    let f = 1 + pow(x, h);
    vstd::arithmetic::div_mod::lemma_small_mod(0, m as nat);
    lemma_add_mul_mod(f, g, m);
    if e == k - 1 {
        assert(f % m == 0);
        assert((f % m) * (g % m) == 0) by (nonlinear_arith)
            requires f % m == 0;
    } else {
        lemma_geometric_zero(x, (k - 1) as nat, e, m);
        assert((f % m) * (g % m) == 0) by (nonlinear_arith)
            requires g % m == 0;
    }
}

/// At a point congruent to one, the geometric sum is the number of terms.
proof fn lemma_geometric_one(x: int, n: nat, m: int)
    requires
        m > 1,
        x % m == 1,
    ensures
        poly_eval(ones(n), x) % m == (n as int) % m,
    decreases n,
{
    if n > 0 {
        lemma_geometric_one(x, (n - 1) as nat, m);
        assert(ones(n).drop_first() =~= ones((n - 1) as nat));
        let g = poly_eval(ones((n - 1) as nat), x);
        lemma_add_mul_mod(x, g, m);
        lemma_mod_twice(g, m);
        lemma_mod_twice((n - 1) as int, m);
        vstd::arithmetic::div_mod::lemma_small_mod(1, m as nat);
        lemma_add_mul_mod(1, x * g, m);
        lemma_add_mul_mod(1, (n - 1) as int, m);
        lemma_mod_twice(1 * ((n - 1) as int), m);
    }
}

/// An odd power of minus one is minus one.
proof fn lemma_minus_one_odd_power(o: nat, m: int)
    requires
        m > 1,
        o % 2 == 1,
    ensures
        pow(m - 1, o) % m == m - 1,
    decreases o,
{
    vstd::arithmetic::div_mod::lemma_small_mod((m - 1) as nat, m as nat);
    vstd::arithmetic::power::lemma_pow1(m - 1);
    if o > 1 {
        lemma_minus_one_odd_power((o - 2) as nat, m);
        vstd::arithmetic::power::lemma_pow_adds(m - 1, (o - 2) as nat, 2);
        vstd::arithmetic::power::lemma_pow_adds(m - 1, 1, 1);
        let q = pow(m - 1, (o - 2) as nat);
        assert((m - 1) * (m - 1) == m * (m - 2) + 1) by (nonlinear_arith);
        vstd::arithmetic::div_mod::lemma_mod_multiples_vanish(m - 2, 1, m);
        vstd::arithmetic::div_mod::lemma_small_mod(1, m as nat);
        lemma_add_mul_mod(q, (m - 1) * (m - 1), m);
        assert((m - 1) * 1 == m - 1);
        lemma_mod_twice(m - 1, m);
    }
}

/// `d = 2^f o` with `o` odd.
proof fn lemma_odd_part(d: nat) -> (r: (nat, nat))
    requires
        d > 0,
    ensures
        d == pow2(r.0) * r.1,
        r.1 % 2 == 1,
    decreases d,
{
    if d % 2 == 1 {
        vstd::arithmetic::power2::lemma2_to64();
        (0, d)
    } else {
        let (f, o) = lemma_odd_part(d / 2);
        vstd::arithmetic::power2::lemma_pow2_unfold(f + 1);
        assert(d == pow2(f + 1) * o) by (nonlinear_arith)
            requires d == 2 * (d / 2), d / 2 == pow2(f) * o, pow2(f + 1) == 2 * pow2(f);
        (f + 1, o)
    }
}

/// For a root of order `2^k` and `0 < d < 2^k`, some `(w^d)^(2^e)`, `e < k`,
/// is minus one.
proof fn lemma_root_power_minus_one(w: int, k: nat, d: nat, m: int) -> (e: nat)
    requires
        m > 1,
        k >= 1,
        0 < d < pow2(k),
        pow(w, pow2((k - 1) as nat)) % m == m - 1,
    ensures
        e < k,
        (pow(pow(w, d), pow2(e)) + 1) % m == 0,
{
    let (f, o) = lemma_odd_part(d);
    if f >= k {
        if f > k {
            vstd::arithmetic::power2::lemma_pow2_strictly_increases(k, f);
        }
        assert(pow2(f) * o >= pow2(f)) by (nonlinear_arith)
            requires o >= 1;
        assert(false);
    }
    let e = (k - 1 - f) as nat;
    vstd::arithmetic::power::lemma_pow_multiplies(w, d, pow2(e));
    vstd::arithmetic::power2::lemma_pow2_adds(f, e);
    assert(d * pow2(e) == o * pow2((k - 1) as nat)) by (nonlinear_arith)
        requires d == pow2(f) * o, pow2(f + e) == pow2(f) * pow2(e), f + e == k - 1;
    vstd::arithmetic::power::lemma_pow_multiplies(w, pow2((k - 1) as nat), o);
    assert(pow2((k - 1) as nat) * o == o * pow2((k - 1) as nat)) by (nonlinear_arith);
    vstd::arithmetic::power::lemma_pow_mod_noop(pow(w, pow2((k - 1) as nat)), o, m);
    lemma_minus_one_odd_power(o, m);
    vstd::arithmetic::div_mod::lemma_small_mod(0, m as nat);
    lemma_add_mul_mod(pow(pow(w, d), pow2(e)), 1, m);
    vstd::arithmetic::div_mod::lemma_small_mod(1, m as nat);
    vstd::arithmetic::div_mod::lemma_mod_self_0(m);
    e
}

/// The unit vector `t` of length `n`.
pub open spec fn unit(t: int, n: nat) -> Seq<int> {
    Seq::new(n, |u: int| if u == t { 1int } else { 0int })
}

/// `a` with every element from `t` on set to zero.
pub open spec fn prefix(a: Seq<int>, t: int) -> Seq<int> {
    Seq::new(a.len(), |u: int| if u < t { a[u] } else { 0int })
}

proof fn lemma_unit_eval(t: nat, n: nat, y: int)
    requires
        t < n,
    ensures
        poly_eval(unit(t as int, n), y) == pow(y, t),
    decreases t,
{
    let u = unit(t as int, n);
    vstd::arithmetic::power::lemma_pow0(y);
    if t == 0 {
        assert forall|j: int| 0 <= j < u.drop_first().len() implies #[trigger] u.drop_first()[j] == 0 by {}
        crate::poly::lemma_poly_eval_zero(u.drop_first(), y);
    } else {
        assert(u.drop_first() =~= unit(t - 1, (n - 1) as nat));
        lemma_unit_eval((t - 1) as nat, (n - 1) as nat, y);
        vstd::arithmetic::power::lemma_pow_adds(y, 1, (t - 1) as nat);
        vstd::arithmetic::power::lemma_pow1(y);
    }
}

/// `w^n = 1` for a root of order `n = 2^k`, and its inverse is `w^(n-1)`.
proof fn lemma_root_facts(w: int, w_inv: int, k: nat, m: int)
    requires
        m > 1,
        k >= 1,
        is_primitive_root_value(w, k, m),
        (w * w_inv) % m == 1,
    ensures
        pow(w, pow2(k)) % m == 1,
        w_inv % m == pow(w, (pow2(k) - 1) as nat) % m,
{
    let h = pow2((k - 1) as nat);
    let n = pow2(k);
    vstd::arithmetic::power2::lemma_pow2_unfold(k);
    vstd::arithmetic::power2::lemma_pow2_pos((k - 1) as nat);
    vstd::arithmetic::power::lemma_pow_adds(w, h, h);
    let q = pow(w, h);
    lemma_add_mul_mod(q, q, m);
    vstd::arithmetic::div_mod::lemma_small_mod((m - 1) as nat, m as nat);
    assert((m - 1) * (m - 1) == m * (m - 2) + 1) by (nonlinear_arith);
    vstd::arithmetic::div_mod::lemma_mod_multiples_vanish(m - 2, 1, m);
    vstd::arithmetic::div_mod::lemma_small_mod(1, m as nat);
    assert(pow(w, n) % m == 1);
    // w_inv = w_inv * w^n = (w * w_inv) * w^(n-1)
    vstd::arithmetic::power::lemma_pow_adds(w, 1, (n - 1) as nat);
    vstd::arithmetic::power::lemma_pow1(w);
    let r = pow(w, (n - 1) as nat);
    assert(w_inv * pow(w, n) == (w * w_inv) * r) by (nonlinear_arith)
        requires pow(w, n) == w * r;
    lemma_add_mul_mod(w_inv, pow(w, n), m);
    lemma_add_mul_mod(w * w_inv, r, m);
    lemma_mod_twice(w_inv, m);
    lemma_mod_twice(r, m);
    assert((w_inv % m) * 1 == w_inv % m);
    assert(1 * (r % m) == r % m);
}

/// `w^t w_inv^i` is one when `t = i` and otherwise a power `w^d`, `0 < d < n`.
proof fn lemma_twiddle_product(w: int, w_inv: int, k: nat, m: int, t: nat, i: nat) -> (d: nat)
    requires
        m > 1,
        k >= 1,
        is_primitive_root_value(w, k, m),
        (w * w_inv) % m == 1,
        t < pow2(k),
        i < pow2(k),
    ensures
        d < pow2(k),
        (d == 0) == (t == i),
        (pow(w, t) * pow(w_inv, i)) % m == pow(w, d) % m,
{
    let n = pow2(k);
    lemma_root_facts(w, w_inv, k, m);
    vstd::arithmetic::power2::lemma_pow2_pos(k);
    // w_inv^i = w^((n-1) i)
    vstd::arithmetic::power::lemma_pow_mod_noop(w_inv, i, m);
    vstd::arithmetic::power::lemma_pow_mod_noop(pow(w, (n - 1) as nat), i, m);
    vstd::arithmetic::power::lemma_pow_multiplies(w, (n - 1) as nat, i);
    let e = t + (n - 1) * i;
    let ni = ((n - 1) * i) as nat;
    assert(pow(pow(w, (n - 1) as nat), i) == pow(w, ni));
    assert(pow(w_inv, i) % m == pow(w, ni) % m);
    vstd::arithmetic::power::lemma_pow_adds(w, t, ni);
    lemma_add_mul_mod(pow(w, t), pow(w_inv, i), m);
    lemma_add_mul_mod(pow(w, t), pow(w, ni), m);
    assert((pow(w, t) * pow(w_inv, i)) % m == pow(w, (t + ni) as nat) % m);
    assert(t + ni == e);
    // w^e = (w^n)^q w^d with d = e mod n
    let d = (e % (n as int)) as nat;
    let q = (e / (n as int)) as nat;
    vstd::arithmetic::div_mod::lemma_fundamental_div_mod(e as int, n as int);
    vstd::arithmetic::div_mod::lemma_mod_bound(e as int, n as int);
    vstd::arithmetic::div_mod::lemma_div_pos_is_pos(e as int, n as int);
    vstd::arithmetic::power::lemma_pow_adds(w, n * q, d);
    vstd::arithmetic::power::lemma_pow_multiplies(w, n, q);
    vstd::arithmetic::power::lemma_pow_mod_noop(pow(w, n), q, m);
    vstd::arithmetic::power::lemma1_pow(q);
    assert(n * q + d == e) by (nonlinear_arith)
        requires e == n * q + d;
    lemma_add_mul_mod(pow(pow(w, n), q), pow(w, d), m);
    lemma_mod_twice(pow(w, d), m);
    vstd::arithmetic::div_mod::lemma_small_mod(1, m as nat);
    assert(pow(w, n) % m == 1);
    assert(pow(1, q) == 1);
    assert(pow(pow(w, n), q) % m == 1);
    assert(1 * (pow(w, d) % m) == pow(w, d) % m);
    assert((n * q + d) as nat == e as nat);
    assert(pow(w, e as nat) % m == pow(w, d) % m);
    // e = t - i (mod n)
    assert(e == (t - i) + n * i) by (nonlinear_arith)
        requires e == t + (n - 1) * i;
    vstd::arithmetic::div_mod::lemma_mod_multiples_vanish(i as int, t - i, n as int);
    assert(((t - i) + n * i) % (n as int) == (n * i + (t - i)) % (n as int));
    if t == i {
        vstd::arithmetic::div_mod::lemma_small_mod(0, n);
    } else if t > i {
        vstd::arithmetic::div_mod::lemma_small_mod((t - i) as nat, n);
    } else {
        vstd::arithmetic::div_mod::lemma_small_mod((t - i + n) as nat, n);
        vstd::arithmetic::div_mod::lemma_mod_add_multiples_vanish(t - i, n as int);
    }
    d
}

/// Transforming at a root `w` of order `n = 2^k` and then at its inverse
/// gives back `n` times the input: the transform is undone by the transform
/// at `w^-1` followed by division by `n`.
pub proof fn fft_round_trip(a: Seq<int>, w: int, w_inv: int, k: nat, m: int)
    requires
        m > 1,
        a.len() == pow2(k),
        is_primitive_root_value(w, k, m),
        (w * w_inv) % m == 1,
    ensures
        forall|i: int|
            0 <= i < a.len() ==> #[trigger] (poly_eval(transform(a, w, m), pow(w_inv, i as nat)) % m) == (
            pow2(k) * a[i]) % m,
{
    let n = pow2(k);
    vstd::arithmetic::power2::lemma_pow2_pos(k);
    assert forall|i: int| 0 <= i < a.len() implies #[trigger] (poly_eval(transform(a, w, m), pow(w_inv, i as nat))
        % m) == (pow2(k) * a[i]) % m by {
        lemma_round_trip_prefix(a, w, w_inv, k, m, n, i as nat);
        assert(prefix(a, n as int) =~= a);
        assert(n * a[i] == pow2(k) * a[i]);
    }
}

/// The first `t` elements of `a` transform and transform back to `n a_i`
/// once `t` passes `i`, and to zero before.
proof fn lemma_round_trip_prefix(a: Seq<int>, w: int, w_inv: int, k: nat, m: int, t: nat, i: nat)
    requires
        m > 1,
        a.len() == pow2(k),
        is_primitive_root_value(w, k, m),
        (w * w_inv) % m == 1,
        t <= a.len(),
        i < a.len(),
    ensures
        poly_eval(transform(prefix(a, t as int), w, m), pow(w_inv, i)) % m == (if i < t { pow2(k) * a[i as int] } else { 0 }) % m,
    decreases t,
{
    if t == 0 {
        let n = pow2(k);
        assert forall|j: int| 0 <= j < n implies #[trigger] transform(prefix(a, 0), w, m)[j] == 0 by {
            crate::poly::lemma_poly_eval_zero(prefix(a, 0), pow(w, j as nat));
            vstd::arithmetic::div_mod::lemma_small_mod(0, m as nat);
        }
        crate::poly::lemma_poly_eval_zero(transform(prefix(a, 0), w, m), pow(w_inv, i));
        vstd::arithmetic::div_mod::lemma_small_mod(0, m as nat);
    } else {
        lemma_round_trip_prefix(a, w, w_inv, k, m, (t - 1) as nat, i);
        lemma_round_trip_step(a, w, w_inv, k, m, (t - 1) as nat, i);
    }
}

/// Adding element `t` of `a` to the prefix adds `a_t` times the transform of
/// the unit vector `t`, whose value at `w_inv^i` is `n` for `t = i` and zero
/// otherwise.
proof fn lemma_round_trip_step(a: Seq<int>, w: int, w_inv: int, k: nat, m: int, t: nat, i: nat)
    requires
        m > 1,
        a.len() == pow2(k),
        is_primitive_root_value(w, k, m),
        (w * w_inv) % m == 1,
        t < a.len(),
        i < a.len(),
        poly_eval(transform(prefix(a, t as int), w, m), pow(w_inv, i)) % m == (if i < t { pow2(k) * a[i as int] } else { 0 }) % m,
    ensures
        poly_eval(transform(prefix(a, t + 1int), w, m), pow(w_inv, i)) % m == (if i < t + 1 { pow2(k) * a[i as int] } else { 0 }) % m,
{
    let n = pow2(k);
    let z = pow(w_inv, i);
    let p = pow(w, t);
    let at = a[t as int];
    let old_c = prefix(a, t as int);
    let new_c = prefix(a, t + 1int);
    let ut = unit(t as int, n);
    let pt = Seq::new(n, |j: int| pow(p, j as nat));
    // Each point: new(w^j) = old(w^j) + a_t (w^j)^t = old(w^j) + a_t p^j.
    assert forall|j: int| 0 <= j < n implies #[trigger] (transform(new_c, w, m)[j] % m) == (transform(old_c, w, m)[j]
        + pt[j] * at) % m by {
        let y = pow(w, j as nat);
        assert forall|u: int| 0 <= u < n implies #[trigger] (new_c[u] % m) == (old_c[u] + ut[u] * at) % m by {
            if u == t {
                assert(ut[u] * at == at);
            } else {
                assert(ut[u] == 0);
                assert(ut[u] * at == 0);
            }
        }
        lemma_poly_eval_lincomb(old_c, ut, new_c, at, y, m);
        lemma_unit_eval(t, n, y);
        vstd::arithmetic::power::lemma_pow_multiplies(w, j as nat, t);
        vstd::arithmetic::power::lemma_pow_multiplies(w, t, j as nat);
        assert((j as nat) * t == t * (j as nat)) by (nonlinear_arith);
        let x_new = poly_eval(new_c, y);
        let x_old = poly_eval(old_c, y);
        lemma_mod_twice(x_new, m);
        vstd::arithmetic::div_mod::lemma_add_mod_noop_right(x_old % m, pt[j] * at, m);
        lemma_add_mul_mod(x_old, pt[j] * at, m);
        lemma_mod_twice(x_old, m);
        assert(pow(y, t) == pow(p, j as nat));
        assert(at * pow(y, t) == pt[j] * at) by (nonlinear_arith)
            requires pow(y, t) == pt[j];
    }
    lemma_poly_eval_lincomb(transform(old_c, w, m), pt, transform(new_c, w, m), at, z, m);
    // The unit transform at z is the geometric sum at p z.
    assert(pt =~= Seq::new(ones(n).len(), |j: int| pow(p, j as nat) * ones(n)[j]));
    lemma_scaled_point(ones(n), p, z);
    let g = poly_eval(ones(n), p * z);
    let prev = poly_eval(transform(old_c, w, m), z);
    lemma_add_mul_mod(prev, at * g, m);
    vstd::arithmetic::div_mod::lemma_mul_mod_noop_right(at, g, m);
    if t == i {
        vstd::arithmetic::power::lemma_pow_distributes(w, w_inv, i);
        vstd::arithmetic::power::lemma_pow_mod_noop(w * w_inv, i, m);
        vstd::arithmetic::power::lemma1_pow(i);
        vstd::arithmetic::div_mod::lemma_small_mod(1, m as nat);
        lemma_geometric_one(p * z, n, m);
        vstd::arithmetic::div_mod::lemma_small_mod(0, m as nat);
        lemma_mod_twice(prev, m);
        vstd::arithmetic::div_mod::lemma_mul_mod_noop_right(at, n as int, m);
        lemma_add_mul_mod(0, at * n, m);
        assert(at * n == n * at) by (nonlinear_arith);
        assert(prev % m == 0);
    } else {
        assert(k >= 1) by {
            if k == 0 {
                vstd::arithmetic::power2::lemma2_to64();
            }
        }
        let d = lemma_twiddle_product(w, w_inv, k, m, t, i);
        let e = lemma_root_power_minus_one(w, k, d, m);
        lemma_geometric_zero(pow(w, d), k, e, m);
        lemma_poly_eval_congruent_ones(n, p * z, pow(w, d), m);
        assert((at * (g % m)) == 0) by (nonlinear_arith)
            requires g % m == 0;
        lemma_mod_twice(prev, m);
        vstd::arithmetic::div_mod::lemma_small_mod(0, m as nat);
        assert((prev + at * g) % m == prev % m);
        assert((if i < t + 1 { n * a[i as int] } else { 0 }) == (if i < t { n * a[i as int] } else { 0 }));
    }
}

proof fn lemma_poly_eval_congruent_ones(n: nat, x: int, y: int, m: int)
    requires
        m > 1,
        x % m == y % m,
    ensures
        poly_eval(ones(n), x) % m == poly_eval(ones(n), y) % m,
{
    crate::fft::lemma_poly_eval_congruent(ones(n), x, y, m);
}

/// The inverse of two modulo an odd `m`: `(m + 1) / 2`.
pub open spec fn half(m: int) -> int {
    (m + 1) / 2
}

/// `2^k` times `half(m)^k` is one modulo an odd `m`.
pub proof fn lemma_half_power(m: int, k: nat)
    requires
        m > 1,
        m % 2 == 1,
    ensures
        (pow2(k) * pow(half(m), k)) % m == 1,
{
    vstd::arithmetic::power2::lemma_pow2(k);
    vstd::arithmetic::power::lemma_pow_distributes(2, half(m), k);
    assert(2 * half(m) == m + 1);
    vstd::arithmetic::power::lemma_pow_mod_noop(m + 1, k, m);
    vstd::arithmetic::div_mod::lemma_mod_multiples_vanish(1, 1, m);
    vstd::arithmetic::div_mod::lemma_small_mod(1, m as nat);
    assert((m + 1) % m == 1);
    vstd::arithmetic::power::lemma1_pow(k);
}

/// Transforming at a root `w` of order `n = 2^k`, then at its inverse, then
/// dividing by `n` gives back the input, modulo an odd `m`.
pub proof fn fft_round_trip_scaled(a: Seq<int>, w: int, w_inv: int, k: nat, m: int)
    requires
        m > 1,
        m % 2 == 1,
        a.len() == pow2(k),
        is_primitive_root_value(w, k, m),
        (w * w_inv) % m == 1,
    ensures
        forall|i: int|
            0 <= i < a.len() ==> #[trigger] ((pow(half(m), k) * poly_eval(transform(a, w, m), pow(w_inv, i as nat)))
                % m) == a[i] % m,
{
    fft_round_trip(a, w, w_inv, k, m);
    lemma_half_power(m, k);
    assert forall|i: int| 0 <= i < a.len() implies #[trigger] ((pow(half(m), k) * poly_eval(
        transform(a, w, m),
        pow(w_inv, i as nat),
    )) % m) == a[i] % m by {
        let p = poly_eval(transform(a, w, m), pow(w_inv, i as nat));
        let hk = pow(half(m), k);
        let nk = pow2(k) as int;
        assert(p % m == (nk * a[i]) % m);
        vstd::arithmetic::div_mod::lemma_mul_mod_noop_right(hk, p, m);
        vstd::arithmetic::div_mod::lemma_mul_mod_noop_right(hk, nk * a[i], m);
        assert(hk * (nk * a[i]) == (nk * hk) * a[i]) by (nonlinear_arith);
        vstd::arithmetic::div_mod::lemma_mul_mod_noop_left(nk * hk, a[i], m);
        assert(1 * a[i] == a[i]);
    }
}

/// The round trip in a field: transforming at a primitive `2^k`-th root
/// `w`, then at its inverse `w_inv`, then multiplying by `n_inv`, the
/// inverse of `n = 2^k`, gives back the input.
pub proof fn fft_round_trip_in_field<F: PrimeField>(a: Seq<F>, w: F, w_inv: F, n_inv: F, k: nat)
    requires
        a.len() == pow2(k),
        is_primitive_root_value(w.value(), k, F::modulus()),
        (w.value() * w_inv.value()) % F::modulus() == 1,
        (pow2(k) * n_inv.value()) % F::modulus() == 1,
    ensures
        forall|i: int|
            0 <= i < a.len() ==> #[trigger] ((n_inv.value() * poly_eval(
                transform(values(a), w.value(), F::modulus()),
                pow(w_inv.value(), i as nat),
            )) % F::modulus()) == a[i].value(),
{
    let m = F::modulus();
    F::lemma_modulus();
    fft_round_trip_scaled(values(a), w.value(), w_inv.value(), k, m);
    lemma_half_power(m, k);
    let hk = pow(half(m), k);
    let nk = pow2(k) as int;
    let ni = n_inv.value();
    // n_inv = n_inv (n hk) = hk (n n_inv) = hk  (mod m)
    F::lemma_value_bound(n_inv);
    lemma_add_mul_mod(ni, nk * hk, m);
    lemma_add_mul_mod(hk, nk * ni, m);
    lemma_mod_twice(ni, m);
    lemma_mod_twice(hk, m);
    vstd::arithmetic::div_mod::lemma_small_mod(ni as nat, m as nat);
    assert(ni * (nk * hk) == hk * (nk * ni)) by (nonlinear_arith);
    assert((ni % m) * 1 == ni % m);
    assert((hk % m) * 1 == hk % m);
    assert(ni % m == hk % m);
    assert forall|i: int| 0 <= i < a.len() implies #[trigger] ((ni * poly_eval(
        transform(values(a), w.value(), m),
        pow(w_inv.value(), i as nat),
    )) % m) == a[i].value() by {
        let p = poly_eval(transform(values(a), w.value(), m), pow(w_inv.value(), i as nat));
        vstd::arithmetic::div_mod::lemma_mul_mod_noop_left(ni, p, m);
        vstd::arithmetic::div_mod::lemma_mul_mod_noop_left(hk, p, m);
        F::lemma_value_bound(a[i]);
        vstd::arithmetic::div_mod::lemma_small_mod(a[i].value() as nat, m as nat);
        assert(values(a)[i] == a[i].value());
    }
}

} // verus!
