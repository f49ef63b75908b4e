//! Polynomial utilities over a prime field: evaluation, inner product,
//! division by a linear factor, vanishing polynomial, powers.

use vstd::prelude::*;
use vstd::arithmetic::power::pow;
use crate::field::{lemma_add_mul_mod, lemma_horner_step_mod, lemma_mod_twice, values, PrimeField};
use crate::parallel::current_num_threads;

verus! {

/// `c[0] + c[1] x + c[2] x^2 + ...`, by Horner's rule.
pub open spec fn poly_eval(c: Seq<int>, x: int) -> int
    decreases c.len(),
{
    if c.len() == 0 {
        0
    } else {
        c[0] + x * poly_eval(c.drop_first(), x)
    }
}

/// `sum a[i] * b[i]`.
pub open spec fn inner(a: Seq<int>, b: Seq<int>) -> int
    decreases a.len(),
{
    if a.len() == 0 {
        0
    } else {
        inner(a.drop_last(), b.drop_last()) + a.last() * b[a.len() - 1]
    }
}

/// `sum s[i]`.
pub open spec fn sum(s: Seq<int>) -> int
    decreases s.len(),
{
    if s.len() == 0 {
        0
    } else {
        sum(s.drop_last()) + s.last()
    }
}

/// `prod (z - r[i])`.
pub open spec fn vanishing(r: Seq<int>, z: int) -> int
    decreases r.len(),
{
    if r.len() == 0 {
        1
    } else {
        vanishing(r.drop_last(), z) * (z - r.last())
    }
}

/// Evaluating a concatenation: `a + x^|a| b`.
pub proof fn lemma_poly_eval_concat(a: Seq<int>, b: Seq<int>, x: int)
    ensures
        poly_eval(a + b, x) == poly_eval(a, x) + pow(x, a.len()) * poly_eval(b, x),
    decreases a.len(),
{
    vstd::arithmetic::power::lemma_pow0(x);
    if a.len() > 0 {
        lemma_poly_eval_concat(a.drop_first(), b, x);
        assert((a + b).drop_first() =~= a.drop_first() + b);
        vstd::arithmetic::power::lemma_pow_adds(x, 1, (a.len() - 1) as nat);
        vstd::arithmetic::power::lemma_pow1(x);
        let t = poly_eval(a.drop_first(), x);
        let u = poly_eval(b, x);
        let w = pow(x, (a.len() - 1) as nat);
        assert(x * (t + w * u) == x * t + (x * w) * u) by (nonlinear_arith);
    }
}

/// A product over a concatenation is the product of the two products.
pub proof fn lemma_vanishing_concat(a: Seq<int>, b: Seq<int>, z: int)
    ensures
        vanishing(a + b, z) == vanishing(a, z) * vanishing(b, z),
    decreases b.len(),
{
    if b.len() == 0 {
        assert(a + b =~= a);
    } else {
        lemma_vanishing_concat(a, b.drop_last(), z);
        assert((a + b).drop_last() =~= a + b.drop_last());
        let va = vanishing(a, z);
        let vb = vanishing(b.drop_last(), z);
        let l = z - b.last();
        assert((va * vb) * l == va * (vb * l)) by (nonlinear_arith);
    }
}

/// Horner's rule on `poly[start..end]`.
fn evaluate<F: PrimeField>(poly: &[F], start: usize, end: usize, point: &F) -> (r: F)
    requires
        start <= end <= poly@.len(),
    ensures
        r.value() == poly_eval(values(poly@).subrange(start as int, end as int), point.value())
            % F::modulus(),
{
    let mut acc = F::zero();
    let mut i = end;
    proof {
        F::lemma_value_bound(acc);
        vstd::arithmetic::div_mod::lemma_small_mod(0, F::modulus() as nat);
        assert(values(poly@).subrange(end as int, end as int) =~= Seq::<int>::empty());
    }
    while i > start
        invariant
            start <= i <= end <= poly@.len(),
            acc.value() == poly_eval(values(poly@).subrange(i as int, end as int), point.value())
                % F::modulus(),
        decreases i,
    {
        i = i - 1;
        let t = acc.mul(point);
        acc = t.add(&poly[i]);
        proof {
            let c = values(poly@).subrange(i as int, end as int);
            assert(c.drop_first() =~= values(poly@).subrange(i + 1, end as int));
            F::lemma_value_bound(*point);
            lemma_horner_step_mod(
                poly_eval(c.drop_first(), point.value()),
                point.value(),
                poly@[i as int].value(),
                F::modulus(),
            );
        }
    }
    acc
}

/// The value of the polynomial with coefficients `poly` (lowest degree first)
/// at `point`. Above a few coefficients per worker, the coefficients are cut
/// into one chunk per worker; each chunk is evaluated on its own, scaled by
/// `point` to the power of its offset, and the parts are summed.
pub fn eval_polynomial<F: PrimeField>(poly: &[F], point: F) -> (r: F)
    ensures
        r.value() == poly_eval(values(poly@), point.value()) % F::modulus(),
{
    let n = poly.len();
    let num_threads = current_num_threads();
    proof {
        assert(values(poly@).subrange(0, n as int) =~= values(poly@));
    }
    if n <= (num_threads - 1) / 2 {
        return evaluate(poly, 0, n, &point);
    }
    let chunk_size = (n - 1) / num_threads + 1;
    let mut acc = F::zero();
    let mut start: usize = 0;
    proof {
        F::lemma_value_bound(acc);
        vstd::arithmetic::div_mod::lemma_small_mod(0, F::modulus() as nat);
        assert(values(poly@).subrange(0, 0) =~= Seq::<int>::empty());
    }
    while start < n
        invariant
            start <= n == poly@.len(),
            chunk_size >= 1,
            acc.value() == poly_eval(values(poly@).subrange(0, start as int), point.value())
                % F::modulus(),
        decreases n - start,
    {
        let end = if n - start < chunk_size { n } else { start + chunk_size };
        let part = evaluate(poly, start, end, &point);
        let shift = point.pow_vartime(start as u64);
        let scaled = part.mul(&shift);
        acc = acc.add(&scaled);
        proof {
            let x = point.value();
            let c = values(poly@);
            let a = c.subrange(0, start as int);
            let b = c.subrange(start as int, end as int);
            assert(a + b =~= c.subrange(0, end as int));
            lemma_poly_eval_concat(a, b, x);
            F::lemma_value_bound(point);
            let m = F::modulus();
            lemma_add_mul_mod(poly_eval(b, x), pow(x, start as nat), m);
            lemma_add_mul_mod(poly_eval(a, x), poly_eval(b, x) * pow(x, start as nat), m);
            assert(poly_eval(b, x) * pow(x, start as nat) == pow(x, start as nat) * poly_eval(b, x))
                by (nonlinear_arith);
        }
        start = end;
    }
    acc
}

/// The inner product `sum a[i] * b[i]`.
pub fn compute_inner_product<F: PrimeField>(a: &[F], b: &[F]) -> (r: F)
    requires
        a@.len() == b@.len(),
    ensures
        r.value() == inner(values(a@), values(b@)) % F::modulus(),
{
    let mut acc = F::zero();
    let mut i: usize = 0;
    proof {
        F::lemma_value_bound(acc);
        vstd::arithmetic::div_mod::lemma_small_mod(0, F::modulus() as nat);
        assert(values(a@).subrange(0, 0) =~= Seq::<int>::empty());
    }
    while i < a.len()
        invariant
            i <= a@.len() == b@.len(),
            acc.value() == inner(values(a@).subrange(0, i as int), values(b@).subrange(0, i as int))
                % F::modulus(),
        decreases a@.len() - i,
    {
        let t = a[i].mul(&b[i]);
        acc = acc.add(&t);
        proof {
            let sa = values(a@).subrange(0, i + 1);
            let sb = values(b@).subrange(0, i + 1);
            assert(sa.drop_last() =~= values(a@).subrange(0, i as int));
            assert(sb.drop_last() =~= values(b@).subrange(0, i as int));
            let m = F::modulus();
            F::lemma_value_bound(a@[i as int]);
            lemma_add_mul_mod(inner(sa.drop_last(), sb.drop_last()), a@[i as int].value() * b@[i as int].value(), m);
            lemma_mod_twice(inner(sa.drop_last(), sb.drop_last()), m);
            lemma_mod_twice(a@[i as int].value() * b@[i as int].value(), m);
        }
        i = i + 1;
    }
    proof {
        assert(values(a@).subrange(0, i as int) =~= values(a@));
        assert(values(b@).subrange(0, i as int) =~= values(b@));
    }
    acc
}

/// The powers `1, base, base^2, ...`, `n` of them.
pub fn powers<F: PrimeField>(base: &F, n: usize) -> (r: Vec<F>)
    ensures
        r@.len() == n,
        forall|i: int| 0 <= i < n ==> #[trigger] r@[i].value() == pow(base.value(), i as nat) % F::modulus(),
{
    let mut r: Vec<F> = Vec::new();
    if n == 0 {
        return r;
    }
    let mut cur = F::one();
    proof {
        vstd::arithmetic::power::lemma_pow0(base.value());
        F::lemma_value_bound(cur);
        vstd::arithmetic::div_mod::lemma_small_mod(1, F::modulus() as nat);
    }
    while r.len() < n
        invariant
            r@.len() <= n,
            cur.value() == pow(base.value(), r@.len() as nat) % F::modulus(),
            forall|i: int| 0 <= i < r@.len() ==> #[trigger] r@[i].value() == pow(base.value(), i as nat) % F::modulus(),
        decreases n - r@.len(),
    {
        let k = r.len();
        r.push(cur);
        cur = cur.mul(base);
        proof {
            let m = F::modulus();
            F::lemma_value_bound(*base);
            vstd::arithmetic::div_mod::lemma_mul_mod_noop_left(pow(base.value(), k as nat), base.value(), m);
            reveal(pow);
            assert(pow(base.value(), (k + 1) as nat) == base.value() * pow(base.value(), k as nat));
            assert(base.value() * pow(base.value(), k as nat) == pow(base.value(), k as nat) * base.value())
                by (nonlinear_arith);
        }
    }
    r
}

/// `q` is the quotient of dividing `a` by `X - b`: coefficient `i` of `q` is
/// the value at `b` of `a[i+1..]`.
pub open spec fn is_kate_quotient<F: PrimeField>(a: Seq<F>, b: F, q: Seq<F>) -> bool {
    &&& a.len() >= 1
    &&& q.len() == a.len() - 1
    &&& forall|i: int| 0 <= i < q.len() ==> #[trigger] q[i].value() == poly_eval(
        values(a).subrange(i + 1, a.len() as int),
        b.value(),
    ) % F::modulus()
}

/// Coefficient `i` of `q(X) * (X - b)`.
pub open spec fn mul_linear_coeff(q: Seq<int>, b: int, i: int) -> int {
    (if 0 < i <= q.len() { q[i - 1] } else { 0 }) - b * (if 0 <= i < q.len() { q[i] } else { 0 })
}

/// Divides the polynomial `a` (lowest degree first) by `X - b`, in one pass
/// from the leading coefficient down; the remainder `a(b)` is dropped.
pub fn kate_division<F: PrimeField>(a: &[F], b: F) -> (q: Vec<F>)
    requires
        a@.len() >= 1,
    ensures
        is_kate_quotient(a@, b, q@),
{
    let n = a.len();
    let neg_b = b.neg();
    let mut q: Vec<F> = Vec::new();
    let zero = F::zero();
    while q.len() < n - 1
        invariant
            q@.len() <= n - 1,
            n == a@.len() >= 1,
        decreases n - 1 - q@.len(),
    {
        q.push(zero);
    }
    let mut tmp = F::zero();
    let mut i = n - 1;
    let ghost m = F::modulus();
    let ghost x = b.value();
    proof {
        F::lemma_value_bound(tmp);
        F::lemma_value_bound(b);
        vstd::arithmetic::div_mod::lemma_small_mod(0, m as nat);
        assert(values(a@).subrange(n as int, n as int) =~= Seq::<int>::empty());
    }
    while i > 0
        invariant
            n == a@.len() >= 1,
            q@.len() == n - 1,
            0 <= i <= n - 1,
            m == F::modulus(),
            x == b.value(),
            neg_b.value() == (-x) % m,
            tmp.value() == (-x * poly_eval(values(a@).subrange(i + 1, n as int), x)) % m,
            forall|k: int| i <= k < n - 1 ==> #[trigger] q@[k].value() == poly_eval(
                values(a@).subrange(k + 1, n as int),
                x,
            ) % m,
        decreases i,
    {
        let lead = a[i].sub(&tmp);
        q.set(i - 1, lead);
        tmp = lead.mul(&neg_b);
        proof {
            let e = poly_eval(values(a@).subrange(i + 1, n as int), x);
            let c = values(a@).subrange(i as int, n as int);
            assert(c.drop_first() =~= values(a@).subrange(i + 1, n as int));
            F::lemma_value_bound(a@[i as int]);
            vstd::arithmetic::div_mod::lemma_small_mod(a@[i as int].value() as nat, m as nat);
            lemma_add_mul_mod(a@[i as int].value(), -x * e, m);
            assert(a@[i as int].value() - (-x * e) == a@[i as int].value() + x * e) by (nonlinear_arith);
            assert(lead.value() == poly_eval(c, x) % m);
            lemma_add_mul_mod(poly_eval(c, x), -x, m);
            vstd::arithmetic::div_mod::lemma_small_mod(neg_b.value() as nat, m as nat);
            assert(poly_eval(c, x) * -x == -x * poly_eval(c, x)) by (nonlinear_arith);
            lemma_mod_twice(-x, m);
        }
        i = i - 1;
    }
    q
}

/// Dividing by `X - b` is exact where `b` is a root: the quotient times
/// `X - b` gives back every coefficient of `a`.
pub proof fn kate_division_exact<F: PrimeField>(a: Seq<F>, b: F, q: Seq<F>)
    requires
        is_kate_quotient(a, b, q),
        poly_eval(values(a), b.value()) % F::modulus() == 0,
    ensures
        forall|i: int| 0 <= i < a.len() ==> #[trigger] (mul_linear_coeff(values(q), b.value(), i) % F::modulus())
            == a[i].value(),
{
    let m = F::modulus();
    let x = b.value();
    let n = a.len() as int;
    let c = values(a);
    F::lemma_value_bound(b);
    vstd::arithmetic::div_mod::lemma_small_mod(0, m as nat);
    assert forall|i: int| 0 <= i < n implies #[trigger] (mul_linear_coeff(values(q), x, i) % m) == a[i].value() by {
        F::lemma_value_bound(a[i]);
        vstd::arithmetic::div_mod::lemma_small_mod(a[i].value() as nat, m as nat);
        let s = c.subrange(i, n);
        assert(s.drop_first() =~= c.subrange(i + 1, n));
        let e = poly_eval(c.subrange(i + 1, n), x);
        let u = if 0 < i { values(q)[i - 1] } else { 0 };
        let v = if i < n - 1 { values(q)[i] } else { 0 };
        assert(poly_eval(s, x) == a[i].value() + x * e);
        if i == 0 {
            assert(s =~= c);
        } else {
            assert(q[i - 1].value() == poly_eval(c.subrange(i, n), x) % m);
            lemma_mod_twice(poly_eval(s, x), m);
        }
        if i < n - 1 {
            assert(q[i].value() == e % m);
        }
        if i == n - 1 {
            assert(c.subrange(i + 1, n) =~= Seq::<int>::empty());
        }
        lemma_linear_coeff(u, v, a[i].value(), x, e, m);
    }
}

proof fn lemma_linear_coeff(u: int, v: int, c: int, x: int, e: int, m: int)
    requires
        m > 0,
        u % m == (c + x * e) % m,
        v == e % m,
    ensures
        (u - x * v) % m == c % m,
{
    lemma_add_mul_mod(u, x * v, m);
    vstd::arithmetic::div_mod::lemma_mul_mod_noop_right(x, e, m);
    lemma_add_mul_mod(c + x * e, x * e, m);
}

/// `prod (z - roots[i])` over `roots[start..end]`.
fn vanishing_range<F: PrimeField>(roots: &[F], start: usize, end: usize, z: &F) -> (r: F)
    requires
        start <= end <= roots@.len(),
    ensures
        r.value() == vanishing(values(roots@).subrange(start as int, end as int), z.value())
            % F::modulus(),
{
    let mut acc = F::one();
    let mut i = start;
    proof {
        F::lemma_value_bound(acc);
        vstd::arithmetic::div_mod::lemma_small_mod(1, F::modulus() as nat);
        assert(values(roots@).subrange(start as int, start as int) =~= Seq::<int>::empty());
    }
    while i < end
        invariant
            start <= i <= end <= roots@.len(),
            acc.value() == vanishing(values(roots@).subrange(start as int, i as int), z.value())
                % F::modulus(),
        decreases end - i,
    {
        let d = z.sub(&roots[i]);
        acc = d.mul(&acc);
        proof {
            let m = F::modulus();
            F::lemma_value_bound(*z);
            let c = values(roots@).subrange(start as int, i + 1);
            assert(c.drop_last() =~= values(roots@).subrange(start as int, i as int));
            let v = vanishing(c.drop_last(), z.value());
            let l = z.value() - roots@[i as int].value();
            lemma_add_mul_mod(l, v, m);
            lemma_mod_twice(l, m);
            lemma_mod_twice(v, m);
            assert(l * v == v * l) by (nonlinear_arith);
        }
        i = i + 1;
    }
    acc
}

/// The vanishing polynomial of `roots` at `z`: `prod (z - roots[i])`. Above a
/// few roots per worker, the roots are cut into one chunk per worker and the
/// chunk products are multiplied together.
pub fn evaluate_vanishing_polynomial<F: PrimeField>(roots: &[F], z: F) -> (r: F)
    ensures
        r.value() == vanishing(values(roots@), z.value()) % F::modulus(),
{
    let n = roots.len();
    let num_threads = current_num_threads();
    proof {
        assert(values(roots@).subrange(0, n as int) =~= values(roots@));
    }
    if n <= (num_threads - 1) / 2 {
        return vanishing_range(roots, 0, n, &z);
    }
    let chunk_size = (n - 1) / num_threads + 1;
    let mut acc = F::one();
    let mut start: usize = 0;
    proof {
        F::lemma_value_bound(acc);
        vstd::arithmetic::div_mod::lemma_small_mod(1, F::modulus() as nat);
        assert(values(roots@).subrange(0, 0) =~= Seq::<int>::empty());
    }
    while start < n
        invariant
            start <= n == roots@.len(),
            chunk_size >= 1,
            acc.value() == vanishing(values(roots@).subrange(0, start as int), z.value())
                % F::modulus(),
        decreases n - start,
    {
        let end = if n - start < chunk_size { n } else { start + chunk_size };
        let part = vanishing_range(roots, start, end, &z);
        acc = acc.mul(&part);
        proof {
            let c = values(roots@);
            let a = c.subrange(0, start as int);
            let b = c.subrange(start as int, end as int);
            assert(a + b =~= c.subrange(0, end as int));
            lemma_vanishing_concat(a, b, z.value());
            F::lemma_value_bound(z);
            lemma_add_mul_mod(vanishing(a, z.value()), vanishing(b, z.value()), F::modulus());
        }
        start = end;
    }
    acc
}

/// `p` is a prime number.
pub open spec fn is_prime(p: int) -> bool {
    &&& p > 1
    &&& forall|d: int| 1 < d < p ==> #[trigger] (p % d) != 0
}

/// Modulo a prime, a product of two nonzero residues is nonzero.
pub proof fn lemma_prime_no_zero_divisors(p: int, a: int, b: int)
    requires
        is_prime(p),
        0 < a < p,
        0 < b < p,
    ensures
        (a * b) % p != 0,
    decreases a,
{
    if a == 1 {
        vstd::arithmetic::div_mod::lemma_small_mod(b as nat, p as nat);
    } else if (a * b) % p == 0 {
        let s = p % a;
        let q = p / a;
        vstd::arithmetic::div_mod::lemma_fundamental_div_mod(p, a);
        vstd::arithmetic::div_mod::lemma_mod_bound(p, a);
        assert(p % a != 0);
        let k = (a * b) / p;
        vstd::arithmetic::div_mod::lemma_fundamental_div_mod(a * b, p);
        assert(s * b == p * (b - q * k)) by (nonlinear_arith)
            requires
                p == a * q + s,
                a * b == p * k,
        ;
        vstd::arithmetic::div_mod::lemma_mod_multiples_basic(b - q * k, p);
        assert((b - q * k) * p == p * (b - q * k)) by (nonlinear_arith);
        lemma_prime_no_zero_divisors(p, s, b);
    }
}

/// The vanishing polynomial of `roots` is zero at each of its roots, and
/// where the field's order is prime, nowhere else.
pub proof fn vanishing_polynomial_zero_iff_root<F: PrimeField>(roots: Seq<F>, z: F)
    ensures
        (exists|i: int| 0 <= i < roots.len() && #[trigger] roots[i].value() == z.value()) ==> vanishing(
            values(roots),
            z.value(),
        ) % F::modulus() == 0,
        is_prime(F::modulus()) ==> ((vanishing(values(roots), z.value()) % F::modulus() == 0) <==> exists|i: int|
            0 <= i < roots.len() && #[trigger] roots[i].value() == z.value()),
{
    lemma_vanishing_at_root(roots, z);
    if is_prime(F::modulus()) {
        vanishing_polynomial_zero_iff(roots, z);
    }
}

/// At one of its roots the vanishing polynomial is zero.
proof fn lemma_vanishing_at_root<F: PrimeField>(roots: Seq<F>, z: F)
    ensures
        (exists|i: int| 0 <= i < roots.len() && #[trigger] roots[i].value() == z.value()) ==> vanishing(
            values(roots),
            z.value(),
        ) % F::modulus() == 0,
    decreases roots.len(),
{
    let m = F::modulus();
    F::lemma_modulus();
    if exists|i: int| 0 <= i < roots.len() && #[trigger] roots[i].value() == z.value() {
        let i = choose|i: int| 0 <= i < roots.len() && #[trigger] roots[i].value() == z.value();
        let rest = roots.drop_last();
        assert(values(roots).drop_last() =~= values(rest));
        let v = vanishing(values(rest), z.value());
        let l = z.value() - roots.last().value();
        vstd::arithmetic::div_mod::lemma_small_mod(0, m as nat);
        if i == roots.len() - 1 {
            assert(l == 0);
            assert(v * l == 0) by (nonlinear_arith)
                requires l == 0;
        } else {
            assert(rest[i] == roots[i]);
            lemma_vanishing_at_root(rest, z);
            assert(v % m == 0);
            lemma_add_mul_mod(v, l, m);
            assert((v % m) * (l % m) == 0) by (nonlinear_arith)
                requires v % m == 0;
        }
    }
}

/// Over a prime field the vanishing polynomial of `roots` is zero at `z`
/// exactly when `z` is one of `roots`.
proof fn vanishing_polynomial_zero_iff<F: PrimeField>(roots: Seq<F>, z: F)
    requires
        is_prime(F::modulus()),
    ensures
        (vanishing(values(roots), z.value()) % F::modulus() == 0) <==> exists|i: int|
            0 <= i < roots.len() && #[trigger] roots[i].value() == z.value(),
    decreases roots.len(),
{
    let m = F::modulus();
    let x = z.value();
    F::lemma_value_bound(z);
    if roots.len() == 0 {
        vstd::arithmetic::div_mod::lemma_small_mod(1, m as nat);
    } else {
        let rest = roots.drop_last();
        vanishing_polynomial_zero_iff(rest, z);
        assert(values(roots).drop_last() =~= values(rest));
        let v = vanishing(values(rest), x);
        let last = roots.last();
        F::lemma_value_bound(last);
        let l = x - last.value();
        lemma_add_mul_mod(v, l, m);
        lemma_mod_twice(v, m);
        lemma_mod_twice(l, m);
        if l % m == 0 {
            assert(l == 0) by {
                if l > 0 {
                    vstd::arithmetic::div_mod::lemma_small_mod(l as nat, m as nat);
                } else if l < 0 {
                    vstd::arithmetic::div_mod::lemma_small_mod((l + m) as nat, m as nat);
                    vstd::arithmetic::div_mod::lemma_mod_add_multiples_vanish(l, m);
                }
            }
            assert(roots[roots.len() - 1].value() == x);
            assert((v % m) * 0 == 0);
            vstd::arithmetic::div_mod::lemma_small_mod(0, m as nat);
        } else {
            vstd::arithmetic::div_mod::lemma_small_mod(0, m as nat);
            assert(l != 0);
            if v % m == 0 {
                assert(0 * (l % m) == 0);
                vstd::arithmetic::div_mod::lemma_small_mod(0, m as nat);
                let i = choose|i: int| 0 <= i < rest.len() && #[trigger] rest[i].value() == x;
                assert(roots[i].value() == x);
            } else {
                lemma_prime_no_zero_divisors(m, v % m, l % m);
                assert forall|i: int| 0 <= i < roots.len() implies #[trigger] roots[i].value() != x by {
                    if i < roots.len() - 1 {
                        assert(rest[i] == roots[i]);
                    }
                }
            }
        }
    }
}

/// Coefficients of `a(X) * (c0 + c1 X)`.
pub open spec fn mul_linear_poly(a: Seq<int>, c0: int, c1: int) -> Seq<int> {
    Seq::new(
        a.len() + 1,
        |i: int| (if i < a.len() { a[i] * c0 } else { 0 }) + (if i >= 1 { a[i - 1] * c1 } else { 0 }),
    )
}

/// A constant polynomial evaluates to its coefficient.
pub proof fn lemma_poly_eval_single(s: Seq<int>, x: int)
    requires
        s.len() == 1,
    ensures
        poly_eval(s, x) == s[0],
{
    assert(poly_eval(s.drop_first(), x) == 0);
    assert(x * 0 == 0);
}

proof fn lemma_poly_eval_add_constant(s: Seq<int>, d: int, x: int)
    requires
        s.len() > 0,
    ensures
        poly_eval(s.update(0, s[0] + d), x) == poly_eval(s, x) + d,
{
    assert(s.update(0, s[0] + d).drop_first() =~= s.drop_first());
}

/// Multiplying by a linear factor multiplies the value.
pub proof fn lemma_mul_linear_poly(a: Seq<int>, c0: int, c1: int, x: int)
    ensures
        poly_eval(mul_linear_poly(a, c0, c1), x) == poly_eval(a, x) * (c0 + c1 * x),
    decreases a.len(),
{
    let p = mul_linear_poly(a, c0, c1);
    if a.len() == 0 {
        assert(p.drop_first() =~= Seq::<int>::empty());
        assert(p[0] == 0);
        lemma_poly_eval_single(p, x);
        assert(poly_eval(a, x) == 0);
        assert(0 * (c0 + c1 * x) == 0);
    } else {
        let a1 = a.drop_first();
        let q = mul_linear_poly(a1, c0, c1);
        lemma_mul_linear_poly(a1, c0, c1, x);
        assert(p.drop_first() =~= q.update(0, q[0] + a[0] * c1));
        lemma_poly_eval_add_constant(q, a[0] * c1, x);
        let e = poly_eval(a1, x);
        assert(p[0] == a[0] * c0);
        assert(poly_eval(p, x) == p[0] + x * poly_eval(p.drop_first(), x));
        assert(poly_eval(a, x) == a[0] + x * e);
        assert(a[0] * c0 + x * (e * (c0 + c1 * x) + a[0] * c1) == (a[0] + x * e) * (c0 + c1 * x))
            by (nonlinear_arith);
    }
}

/// Coefficientwise `c = a + e b` (mod m) gives values `a(x) + e b(x)` (mod m).
pub proof fn lemma_poly_eval_lincomb(a: Seq<int>, b: Seq<int>, c: Seq<int>, e: int, x: int, m: int)
    requires
        m > 0,
        a.len() == b.len() == c.len(),
        forall|t: int| 0 <= t < c.len() ==> #[trigger] (c[t] % m) == (a[t] + b[t] * e) % m,
    ensures
        poly_eval(c, x) % m == (poly_eval(a, x) + e * poly_eval(b, x)) % m,
    decreases c.len(),
{
    if c.len() > 0 {
        lemma_poly_eval_lincomb(a.drop_first(), b.drop_first(), c.drop_first(), e, x, m);
        let pa = poly_eval(a.drop_first(), x);
        let pb = poly_eval(b.drop_first(), x);
        let pc = poly_eval(c.drop_first(), x);
        assert(c[0] % m == (a[0] + b[0] * e) % m);
        // c0 + x pc == a0 + b0 e + x (pa + e pb) (mod m)
        lemma_add_mul_mod(x, pc, m);
        lemma_add_mul_mod(x, pa + e * pb, m);
        lemma_mod_twice(x, m);
        lemma_add_mul_mod(c[0], x * pc, m);
        lemma_add_mul_mod(a[0] + b[0] * e, x * (pa + e * pb), m);
        assert((a[0] + b[0] * e) + x * (pa + e * pb) == (a[0] + x * pa) + e * (b[0] + x * pb))
            by (nonlinear_arith);
    }
}

/// The points are pairwise distinct.
pub open spec fn distinct_points<F: PrimeField>(points: Seq<F>) -> bool {
    forall|i: int, k: int|
        0 <= i < points.len() && 0 <= k < points.len() && i != k ==> #[trigger] points[i].value()
            != #[trigger] points[k].value()
}

/// The coefficients, lowest degree first, of the polynomial of degree below
/// `n` through the `n` points `(points[i], evals[i])`. For each node `j` the
/// Lagrange basis polynomial `prod (X - x_k) / (x_j - x_k)` over `k != j` is
/// built one linear factor at a time, and `evals[j]` times it is added in.
pub fn lagrange_interpolate<F: PrimeField>(points: &[F], evals: &[F]) -> (r: Vec<F>)
    requires
        points@.len() == evals@.len(),
        distinct_points(points@),
    ensures
        r@.len() == points@.len(),
        forall|i: int|
            0 <= i < points@.len() ==> #[trigger] (poly_eval(values(r@), points@[i].value()) % F::modulus())
                == evals@[i].value(),
{
    let n = points.len();
    let ghost m = F::modulus();
    let ghost xs = values(points@);
    let ghost es = values(evals@);
    proof {
        F::lemma_modulus();
    }
    if n == 1 {
        let mut r: Vec<F> = Vec::new();
        r.push(evals[0]);
        proof {
            assert(values(r@).drop_first() =~= Seq::<int>::empty());
            F::lemma_value_bound(evals@[0]);
            vstd::arithmetic::div_mod::lemma_small_mod(evals@[0].value() as nat, m as nat);
            assert forall|i: int| 0 <= i < 1 implies #[trigger] (poly_eval(values(r@), points@[i].value()) % m)
                == evals@[i].value() by {
                lemma_poly_eval_single(values(r@), points@[i].value());
            }
        }
        return r;
    }
    let zero = F::zero();
    let mut final_poly: Vec<F> = Vec::new();
    while final_poly.len() < n
        invariant
            final_poly@.len() <= n,
            zero.value() == 0,
            forall|t: int| 0 <= t < final_poly@.len() ==> #[trigger] final_poly@[t].value() == 0,
        decreases n - final_poly@.len(),
    {
        final_poly.push(zero);
    }
    proof {
        assert forall|i: int| 0 <= i < n implies #[trigger] (poly_eval(values(final_poly@), xs[i]) % m) == 0 by {
            lemma_poly_eval_zero(values(final_poly@), xs[i]);
            vstd::arithmetic::div_mod::lemma_small_mod(0, m as nat);
        }
    }
    let mut j: usize = 0;
    while j < n
        invariant
            n == points@.len() == evals@.len(),
            j <= n,
            m == F::modulus(),
            m > 1,
            xs == values(points@),
            es == values(evals@),
            distinct_points(points@),
            final_poly@.len() == n,
            forall|i: int| 0 <= i < n ==> #[trigger] (poly_eval(values(final_poly@), xs[i]) % m) == (if i < j {
                es[i]
            } else {
                0
            }),
        decreases n - j,
    {
        let basis = lagrange_basis(points, j);
        let ghost old_final = values(final_poly@);
        let mut t: usize = 0;
        while t < n
            invariant
                n == points@.len() == evals@.len(),
                j < n,
                m == F::modulus(),
                m > 1,
                basis@.len() == n,
                final_poly@.len() == n,
                old_final.len() == n,
                forall|u: int| 0 <= u < t ==> #[trigger] final_poly@[u].value() == (old_final[u] + basis@[u].value()
                    * evals@[j as int].value()) % m,
                forall|u: int| t <= u < n ==> #[trigger] final_poly@[u].value() == old_final[u],
            decreases n - t,
        {
            let term = basis[t].mul(&evals[j]);
            proof {
                F::lemma_value_bound(final_poly@[t as int]);
                assert(final_poly@[t as int].value() == old_final[t as int]);
                lemma_add_mul_mod(old_final[t as int], basis@[t as int].value() * evals@[j as int].value(), m);
                lemma_mod_twice(basis@[t as int].value() * evals@[j as int].value(), m);
                vstd::arithmetic::div_mod::lemma_small_mod(old_final[t as int] as nat, m as nat);
            }
            let updated = final_poly[t].add(&term);
            final_poly.set(t, updated);
            t = t + 1;
        }
        proof {
            assert forall|i: int| 0 <= i < n implies #[trigger] (poly_eval(values(final_poly@), xs[i]) % m) == (if i < j + 1 {
                es[i]
            } else {
                0
            }) by {
                let e = es[j as int];
                assert forall|u: int| 0 <= u < n implies #[trigger] (values(final_poly@)[u] % m) == (old_final[u]
                    + values(basis@)[u] * e) % m by {
                    F::lemma_value_bound(final_poly@[u]);
                    lemma_mod_twice(old_final[u] + values(basis@)[u] * e, m);
                }
                lemma_poly_eval_lincomb(old_final, values(basis@), values(final_poly@), e, xs[i], m);
                let pb = poly_eval(values(basis@), xs[i]);
                let pa = poly_eval(old_final, xs[i]);
                lemma_add_mul_mod(pa, e * pb, m);
                vstd::arithmetic::div_mod::lemma_mul_mod_noop_right(e, pb, m);
                lemma_add_mul_mod(pa, e * (pb % m), m);
                F::lemma_value_bound(evals@[i]);
                F::lemma_value_bound(evals@[j as int]);
                vstd::arithmetic::div_mod::lemma_small_mod(es[i] as nat, m as nat);
                vstd::arithmetic::div_mod::lemma_small_mod(e as nat, m as nat);
                assert(poly_eval(values(basis@), points@[i].value()) % m == (if i == j { 1int } else { 0int }));
                assert(xs[i] == points@[i].value());
                vstd::arithmetic::div_mod::lemma_small_mod(0, m as nat);
                if i == j {
                    assert(pb % m == 1);
                    assert(e * (pb % m) == e) by (nonlinear_arith)
                        requires pb % m == 1;
                } else {
                    assert(pb % m == 0);
                    assert(e * (pb % m) == 0) by (nonlinear_arith)
                        requires pb % m == 0;
                }
                lemma_mod_twice(pa, m);
            }
        }
        j = j + 1;
    }
    proof {
        assert forall|i: int| 0 <= i < n implies #[trigger] (poly_eval(values(final_poly@), points@[i].value()) % m)
            == evals@[i].value() by {
            assert(xs[i] == points@[i].value());
            assert(poly_eval(values(final_poly@), xs[i]) % m == es[i]);
        }
    }
    final_poly
}

pub proof fn lemma_poly_eval_zero(c: Seq<int>, x: int)
    requires
        forall|t: int| 0 <= t < c.len() ==> #[trigger] c[t] == 0,
    ensures
        poly_eval(c, x) == 0,
    decreases c.len(),
{
    if c.len() > 0 {
        lemma_poly_eval_zero(c.drop_first(), x);
    }
}

/// Position `t` among the nodes other than `j`.
pub open spec fn node_of(t: int, j: int) -> int {
    if t < j {
        t
    } else {
        t + 1
    }
}

/// The Lagrange basis polynomial of node `j`: one at `points[j]`, zero at
/// every other point, of degree below `points.len()`.
fn lagrange_basis<F: PrimeField>(points: &[F], j: usize) -> (r: Vec<F>)
    requires
        j < points@.len(),
        distinct_points(points@),
    ensures
        r@.len() == points@.len(),
        forall|i: int|
            0 <= i < points@.len() ==> #[trigger] (poly_eval(values(r@), points@[i].value()) % F::modulus())
                == if i == j { 1int } else { 0int },
{
    let n = points.len();
    let ghost m = F::modulus();
    let ghost xs = values(points@);
    let mut tmp: Vec<F> = Vec::new();
    tmp.push(F::one());
    proof {
        F::lemma_modulus();
        assert(values(tmp@).drop_first() =~= Seq::<int>::empty());
        vstd::arithmetic::div_mod::lemma_small_mod(1, m as nat);
        lemma_poly_eval_single(values(tmp@), xs[j as int]);
    }
    // The denominators x_j - x_k for k != j, in order, inverted together.
    let mut denoms: Vec<F> = Vec::new();
    let mut k: usize = 0;
    while k < n
        invariant
            n == points@.len(),
            j < n,
            k <= n,
            m == F::modulus(),
            m > 1,
            xs == values(points@),
            distinct_points(points@),
            denoms@.len() == if k > j { k - 1 } else { k as int },
            forall|t: int| 0 <= t < denoms@.len() ==> #[trigger] denoms@[t].value() == (xs[j as int] - xs[node_of(t, j as int)]) % m,
            forall|t: int| 0 <= t < denoms@.len() ==> #[trigger] denoms@[t].value() != 0,
        decreases n - k,
    {
        if k != j {
            let diff = points[j].sub(&points[k]);
            proof {
                F::lemma_value_bound(points@[j as int]);
                F::lemma_value_bound(points@[k as int]);
                let dv = xs[j as int] - xs[k as int];
                if dv % m == 0 {
                    if dv > 0 {
                        vstd::arithmetic::div_mod::lemma_small_mod(dv as nat, m as nat);
                    } else if dv < 0 {
                        vstd::arithmetic::div_mod::lemma_small_mod((dv + m) as nat, m as nat);
                        vstd::arithmetic::div_mod::lemma_mod_add_multiples_vanish(dv, m);
                    }
                    assert(false);
                }
                assert(node_of(denoms@.len() as int, j as int) == k);
            }
            denoms.push(diff);
        }
        k = k + 1;
    }
    let ghost before_inv = denoms@;
    F::batch_invert(&mut denoms);
    proof {
        assert forall|t: int| 0 <= t < denoms@.len() implies #[trigger] (((xs[j as int] - xs[node_of(t, j as int)]) % m)
            * denoms@[t].value()) % m == 1 by {
            assert(before_inv[t].value() != 0);
        }
    }
    let mut k: usize = 0;
    while k < n
        invariant
            n == points@.len(),
            j < n,
            k <= n,
            m == F::modulus(),
            m > 1,
            xs == values(points@),
            distinct_points(points@),
            denoms@.len() == n - 1,
            forall|t: int| 0 <= t < denoms@.len() ==> #[trigger] (((xs[j as int] - xs[node_of(t, j as int)]) % m)
                * denoms@[t].value()) % m == 1,
            tmp@.len() == if k > j { k as int } else { k + 1 },
            poly_eval(values(tmp@), xs[j as int]) % m == 1,
            forall|i: int| 0 <= i < k && i != j ==> #[trigger] (poly_eval(values(tmp@), xs[i]) % m) == 0,
        decreases n - k,
    {
        if k != j {
            let slot = if k < j { k } else { k - 1 };
            let denom = denoms[slot];
            proof {
                assert(node_of(slot as int, j as int) == k);
                assert((((xs[j as int] - xs[k as int]) % m) * denom.value()) % m == 1);
            }
            let c1 = denom;
            let c0 = denom.mul(&points[k]).neg();
            let len = tmp.len();
            let mut product: Vec<F> = Vec::new();
            let mut i: usize = 0;
            proof {
                assert(tmp@.len() >= 1);
            }
            let ghost a = values(tmp@);
            let ghost exact = mul_linear_poly(a, c0.value(), c1.value());
            while i < len
                invariant
                    i <= len,
                    len == tmp@.len(),
                    len >= 1,
                    a == values(tmp@),
                    m == F::modulus(),
                    m > 1,
                    exact == mul_linear_poly(a, c0.value(), c1.value()),
                    product@.len() == i,
                    forall|u: int| 0 <= u < i ==> #[trigger] product@[u].value() == exact[u] % m,
                decreases len - i,
            {
                let lo = tmp[i].mul(&c0);
                let hi = if i >= 1 { tmp[i - 1].mul(&c1) } else { F::zero() };
                let coeff = lo.add(&hi);
                product.push(coeff);
                proof {
                    let u = i as int;
                    let x0 = a[u] * c0.value();
                    let x1 = if u >= 1 { a[u - 1] * c1.value() } else { 0 };
                    vstd::arithmetic::div_mod::lemma_small_mod(0, m as nat);
                    lemma_add_mul_mod(x0, x1, m);
                    assert(exact[u] == x0 + x1);
                }
                i = i + 1;
            }
            let top = tmp[len - 1].mul(&c1);
            product.push(top);
            proof {
                assert(exact[len as int] == 0 + a[len - 1] * c1.value());
            }
            proof {
                let c0v = c0.value();
                let c1v = c1.value();
                let xk = xs[k as int];
                let dinv = denom.value();
                F::lemma_value_bound(points@[k as int]);
                assert forall|x: int| #[trigger] (poly_eval(values(product@), x) % m) == (poly_eval(a, x) * (dinv * (x
                    - xk))) % m by {
                    assert((c0v + c1v * x) % m == (dinv * (x - xk)) % m) by {
                        lemma_add_mul_mod(-(dinv * xk), dinv * x, m);
                        lemma_add_mul_mod(dinv, xk, m);
                        F::lemma_value_bound(denom);
                        vstd::arithmetic::div_mod::lemma_small_mod(dinv as nat, m as nat);
                        vstd::arithmetic::div_mod::lemma_small_mod(xk as nat, m as nat);
                        lemma_mod_twice(dinv * xk, m);
                        lemma_add_mul_mod(0, dinv * xk, m);
                        lemma_mod_twice(-(dinv * xk), m);
                        lemma_add_mul_mod(0, (dinv * xk) % m, m);
                        assert(c0v == (-((dinv * xk) % m)) % m);
                        lemma_add_mul_mod(c0v, c1v * x, m);
                        lemma_mod_twice(c1v * x, m);
                        assert(dinv * x + -(dinv * xk) == dinv * (x - xk)) by (nonlinear_arith);
                
                    }
                    lemma_mul_linear_poly(a, c0v, c1v, x);
                    assert forall|u: int| 0 <= u < exact.len() implies #[trigger] (values(product@)[u] % m) == (exact[u]
                        + exact[u] * 0) % m by {
                        lemma_mod_twice(exact[u], m);
                    }
                    assert(values(product@).len() == exact.len());
                    lemma_poly_eval_lincomb(exact, exact, values(product@), 0, x, m);
                    lemma_add_mul_mod(poly_eval(a, x), c0v + c1v * x, m);
                    lemma_add_mul_mod(poly_eval(a, x), dinv * (x - xk), m);
                }
                // At x_j the new factor is one; at x_k it is zero.
                let pj = poly_eval(a, xs[j as int]);
                lemma_add_mul_mod(pj, dinv * (xs[j as int] - xk), m);
                assert((dinv * (xs[j as int] - xk)) % m == 1) by {
                    lemma_add_mul_mod(xs[j as int] - xk, dinv, m);
                    F::lemma_value_bound(denom);
                    vstd::arithmetic::div_mod::lemma_small_mod(dinv as nat, m as nat);
                    assert(dinv * (xs[j as int] - xk) == (xs[j as int] - xk) * dinv) by (nonlinear_arith);
                }
                vstd::arithmetic::div_mod::lemma_small_mod(1, m as nat);
                assert forall|i2: int| 0 <= i2 < k + 1 && i2 != j implies #[trigger] (poly_eval(values(product@), xs[i2])
                    % m) == 0 by {
                    let pi = poly_eval(a, xs[i2]);
                    lemma_add_mul_mod(pi, dinv * (xs[i2] - xk), m);
                    vstd::arithmetic::div_mod::lemma_small_mod(0, m as nat);
                    if i2 < k {
                        assert(pi % m == 0);
                        let w = (dinv * (xs[i2] - xk)) % m;
                        assert((pi % m) * w == 0) by (nonlinear_arith)
                            requires pi % m == 0;
                    } else {
                        assert(i2 == k);
                        assert(dinv * (xs[i2] - xk) == 0) by (nonlinear_arith)
                            requires xs[i2] == xk;
                    }
                }
            }
            tmp = product;
        }
        k = k + 1;
    }
    proof {
        assert forall|i: int| 0 <= i < n implies #[trigger] (poly_eval(values(tmp@), points@[i].value()) % m) == if i
            == j { 1int } else { 0int } by {
            assert(xs[i] == points@[i].value());
        }
    }
    tmp
}

} // verus!
