//! Radix-2 FFT over a group on which the scalar field acts: bit-reversal
//! permutation, twiddle table, and butterfly passes, iterative or recursive.

use vstd::prelude::*;
use vstd::arithmetic::power::pow;
use vstd::arithmetic::power2::pow2;
use crate::field::{group_values, lemma_add_mul_mod, lemma_mod_twice, CurveAffine, FftGroup, PrimeField};
use crate::parallel::{
    chunk_count, chunk_len, chunk_stop, current_num_threads, is_chunk_index, is_worker_count,
    lemma_chunk_layout, parallelize,
};
use crate::poly::{poly_eval, powers};
use crate::roots::{fft_round_trip_scaled, half, transform};

verus! {

/// The lowest `l` bits of `k`, in reverse order.
pub open spec fn bit_reverse(k: nat, l: nat) -> nat
    decreases l,
{
    if l == 0 {
        0
    } else {
        (k % 2) * pow2((l - 1) as nat) + bit_reverse(k / 2, (l - 1) as nat)
    }
}

pub proof fn lemma_bit_reverse_bound(k: nat, l: nat)
    ensures
        bit_reverse(k, l) < pow2(l),
    decreases l,
{
    if l > 0 {
        vstd::arithmetic::power2::lemma_pow2_unfold(l);
        lemma_bit_reverse_bound(k / 2, (l - 1) as nat);
        let p = pow2((l - 1) as nat);
        assert((k % 2) * p <= p) by (nonlinear_arith)
            requires k % 2 <= 1, p >= 0;
    } else {
        vstd::arithmetic::power2::lemma2_to64();
    }
}

/// The top bit of `k` becomes the lowest bit of its reversal.
pub proof fn lemma_bit_reverse_top(k: nat, l: nat)
    requires
        l >= 1,
        k < pow2(l),
    ensures
        bit_reverse(k, l) == 2 * bit_reverse(k % pow2((l - 1) as nat), (l - 1) as nat) + k / pow2((l - 1) as nat),
    decreases l,
{
    vstd::arithmetic::power2::lemma_pow2_unfold(l);
    vstd::arithmetic::power2::lemma_pow2_pos((l - 1) as nat);
    if l == 1 {
        vstd::arithmetic::power2::lemma2_to64();
        assert(bit_reverse(k, l) == (k % 2) * pow2(0) + bit_reverse(k / 2, 0));
        assert(k % 2 == k);
        assert(k / pow2(0) == k);
        assert(bit_reverse(k % pow2(0), 0) == 0);
        assert(((l - 1) as nat) == 0);
        assert(pow2((l - 1) as nat) == 1);
        assert(bit_reverse(k % pow2((l - 1) as nat), (l - 1) as nat) == 0);
        assert(k / pow2((l - 1) as nat) == k);
        assert(bit_reverse(k / 2, 0) == 0);
        let one = pow2(0);
        assert((k % 2) * one == k % 2) by (nonlinear_arith)
            requires one == 1;
        assert(bit_reverse(k, l) == k);
        assert(bit_reverse(k, l) == 2 * bit_reverse(k % pow2((l - 1) as nat), (l - 1) as nat) + k / pow2((l - 1) as nat));
    } else {
        let h = pow2((l - 2) as nat);
        vstd::arithmetic::power2::lemma_pow2_unfold((l - 1) as nat);
        vstd::arithmetic::power2::lemma_pow2_pos((l - 2) as nat);
        assert(k / 2 < pow2((l - 1) as nat));
        lemma_bit_reverse_top(k / 2, (l - 1) as nat);
        let kp = k % pow2((l - 1) as nat);
        // kp % 2 == k % 2, kp / 2 == (k / 2) % h, k / (2h) == (k / 2) / h
        assert(kp % 2 == k % 2 && kp / 2 == (k / 2) % h && k / (2 * h) == (k / 2) / h) by {
            vstd::arithmetic::div_mod::lemma_mod_mod(k as int, 2, h as int);
            vstd::arithmetic::div_mod::lemma_div_denominator(k as int, 2, h as int);
            vstd::arithmetic::div_mod::lemma_fundamental_div_mod(k as int, (2 * h) as int);
            vstd::arithmetic::div_mod::lemma_fundamental_div_mod(k as int, 2);
            vstd::arithmetic::div_mod::lemma_fundamental_div_mod((k / 2) as int, h as int);
            vstd::arithmetic::div_mod::lemma_mod_bound(k as int, (2 * h) as int);
            vstd::arithmetic::div_mod::lemma_mod_bound((k / 2) as int, h as int);
            assert(2 * h == pow2((l - 1) as nat));
            let q = (k / 2) / h;
            let r = (k / 2) % h;
            assert(k == q * (2 * h) + (2 * r + k % 2)) by (nonlinear_arith)
                requires k / 2 == h * q + r, k == 2 * (k / 2) + k % 2;
            assert(2 * r + k % 2 < 2 * h);
            vstd::arithmetic::div_mod::lemma_fundamental_div_mod_converse(k as int, (2 * h) as int, q as int, (2 * r + k % 2) as int);
            vstd::arithmetic::div_mod::lemma_fundamental_div_mod_converse(kp as int, 2, r as int, (k % 2) as int);
        }
        lemma_bit_reverse_unfold_mul(kp, l);
        assert(bit_reverse(k, l) == (k % 2) * pow2((l - 1) as nat) + bit_reverse(k / 2, (l - 1) as nat));
        assert(bit_reverse(k / 2, (l - 1) as nat) == 2 * bit_reverse((k / 2) % h, (l - 2) as nat) + (k / 2) / h);
        assert(k / pow2((l - 1) as nat) == (k / 2) / h);
        assert(bit_reverse(kp / 2, (l - 2) as nat) == bit_reverse((k / 2) % h, (l - 2) as nat));
        assert((kp % 2) * pow2((l - 1) as nat) == (k % 2) * pow2((l - 1) as nat));
        assert(bit_reverse(k, l) == 2 * bit_reverse(k % pow2((l - 1) as nat), (l - 1) as nat) + k / pow2((l - 1) as nat));
    }
}

proof fn lemma_bit_reverse_unfold_mul(kp: nat, l: nat)
    requires
        l >= 2,
    ensures
        2 * bit_reverse(kp, (l - 1) as nat) == (kp % 2) * pow2((l - 1) as nat) + 2 * bit_reverse(
            kp / 2,
            (l - 2) as nat,
        ),
{
    vstd::arithmetic::power2::lemma_pow2_unfold((l - 1) as nat);
    assert(2 * ((kp % 2) * pow2((l - 2) as nat)) == (kp % 2) * (2 * pow2((l - 2) as nat)))
        by (nonlinear_arith);
}

/// Reversing the lowest `l` bits twice gives back `k`.
pub proof fn lemma_bit_reverse_involution(k: nat, l: nat)
    requires
        k < pow2(l),
    ensures
        bit_reverse(bit_reverse(k, l), l) == k,
    decreases l,
{
    if l == 0 {
        assert(pow2(0) == 1) by {
            vstd::arithmetic::power2::lemma2_to64();
        }
    } else {
        let h = pow2((l - 1) as nat);
        vstd::arithmetic::power2::lemma_pow2_unfold(l);
        vstd::arithmetic::power2::lemma_pow2_pos((l - 1) as nat);
        let r = bit_reverse(k, l);
        let s = bit_reverse(k / 2, (l - 1) as nat);
        lemma_bit_reverse_bound(k, l);
        lemma_bit_reverse_bound(k / 2, (l - 1) as nat);
        lemma_bit_reverse_top(r, l);
        assert(r == (k % 2) * h + s);
        assert(r % h == s && r / h == k % 2) by {
            vstd::arithmetic::div_mod::lemma_fundamental_div_mod_converse(r as int, h as int, (k % 2) as int, s as int);
        }
        assert(k / 2 < h);
        lemma_bit_reverse_involution(k / 2, (l - 1) as nat);
    }
}

/// The even-indexed elements of `b`.
pub open spec fn evens(b: Seq<int>) -> Seq<int> {
    Seq::new(((b.len() + 1) / 2) as nat, |j: int| b[2 * j])
}

/// The odd-indexed elements of `b`.
pub open spec fn odds(b: Seq<int>) -> Seq<int> {
    Seq::new((b.len() / 2) as nat, |j: int| b[2 * j + 1])
}

/// Splitting a polynomial of even length into even and odd parts:
/// `b(y) = evens(b)(y^2) + y * odds(b)(y^2)`.
pub proof fn lemma_even_odd_split(b: Seq<int>, y: int)
    requires
        b.len() % 2 == 0,
    ensures
        poly_eval(b, y) == poly_eval(evens(b), y * y) + y * poly_eval(odds(b), y * y),
    decreases b.len(),
{
    if b.len() > 0 {
        let rest = b.drop_first().drop_first();
        lemma_even_odd_split(rest, y);
        assert(evens(b).drop_first() =~= evens(rest));
        assert(odds(b).drop_first() =~= odds(rest));
        assert(b.drop_first().drop_first() =~= rest);
        let pe = poly_eval(evens(rest), y * y);
        let po = poly_eval(odds(rest), y * y);
        assert(poly_eval(b.drop_first(), y) == b[1] + y * poly_eval(rest, y));
        assert(poly_eval(evens(b), y * y) == b[0] + (y * y) * pe);
        assert(poly_eval(odds(b), y * y) == b[1] + (y * y) * po);
        assert(b[0] + y * (b[1] + y * (pe + y * po)) == (b[0] + (y * y) * pe) + y * (b[1] + (y * y) * po))
            by (nonlinear_arith);
    }
}

/// Evaluating at congruent points gives congruent values.
pub proof fn lemma_poly_eval_congruent(c: Seq<int>, y1: int, y2: int, m: int)
    requires
        m > 0,
        y1 % m == y2 % m,
    ensures
        poly_eval(c, y1) % m == poly_eval(c, y2) % m,
    decreases c.len(),
{
    if c.len() > 0 {
        lemma_poly_eval_congruent(c.drop_first(), y1, y2, m);
        let p1 = poly_eval(c.drop_first(), y1);
        let p2 = poly_eval(c.drop_first(), y2);
        lemma_add_mul_mod(y1, p1, m);
        lemma_add_mul_mod(y2, p2, m);
        lemma_add_mul_mod(c[0], y1 * p1, m);
        lemma_add_mul_mod(c[0], y2 * p2, m);
    }
}

/// One butterfly of a radix-2 step: with `x^h = -1`, `E` and `O` the values of
/// the even and odd parts of `b` at `(x^2)^i`, and `y = x^i`, the values of `b`
/// at `x^i` and `x^(i+h)` are `E + O y` and `E - O y`.
pub proof fn lemma_butterfly(b: Seq<int>, x: int, h: nat, i: nat, m: int)
    requires
        m > 1,
        b.len() == 2 * h,
        i < h,
        pow(x, h) % m == m - 1,
    ensures
        (poly_eval(evens(b), pow(x * x, i)) + poly_eval(odds(b), pow(x * x, i)) * pow(x, i)) % m
            == poly_eval(b, pow(x, i)) % m,
        (poly_eval(evens(b), pow(x * x, i)) - poly_eval(odds(b), pow(x * x, i)) * pow(x, i)) % m
            == poly_eval(b, pow(x, i + h)) % m,
{
    let y = pow(x, i);
    let z = pow(x, h);
    let yy = pow(x * x, i);
    vstd::arithmetic::power::lemma_pow_adds(x, i, i);
    vstd::arithmetic::power::lemma_pow_adds(x, i, h);
    vstd::arithmetic::power::lemma_pow_multiplies(x, 2, i);
    vstd::arithmetic::power::lemma_pow_adds(x, 1, 1);
    vstd::arithmetic::power::lemma_pow1(x);
    vstd::arithmetic::power::lemma_pow_multiplies(x, i, 2);
    assert(pow(x, 2) == x * x);
    assert(yy == y * y) by {
        vstd::arithmetic::power::lemma_pow_multiplies(x, 2, i);
        vstd::arithmetic::power::lemma_pow_adds(x, i, i);
        assert(pow(x, 2 * i) == pow(pow(x, 2), i));
        assert((i + i) as nat == (2 * i) as nat);
    }
    lemma_even_odd_split(b, y);
    let e = poly_eval(evens(b), yy);
    let o = poly_eval(odds(b), yy);
    assert(e + o * y == e + y * o) by (nonlinear_arith);
    // The second point: y' = y z with z = -1, so y'^2 = y^2 z^2 = y^2 (mod m).
    let y2 = pow(x, i + h);
    assert(y2 == y * z);
    lemma_even_odd_split(b, y2);
    lemma_mod_twice(z, m);
    vstd::arithmetic::div_mod::lemma_small_mod((m - 1) as nat, m as nat);
    lemma_add_mul_mod(z, z, m);
    lemma_add_mul_mod(m - 1, m - 1, m);
    assert((m - 1) * (m - 1) == m * (m - 2) + 1) by (nonlinear_arith);
    vstd::arithmetic::div_mod::lemma_mod_multiples_vanish(m - 2, 1, m);
    vstd::arithmetic::div_mod::lemma_small_mod(1, m as nat);
    assert((z * z) % m == 1);
    assert(y2 * y2 == (y * y) * (z * z)) by (nonlinear_arith)
        requires y2 == y * z;
    lemma_add_mul_mod(y * y, z * z, m);
    lemma_add_mul_mod(y * y, 1, m);
    lemma_poly_eval_congruent(evens(b), y2 * y2, y * y, m);
    lemma_poly_eval_congruent(odds(b), y2 * y2, y * y, m);
    let e2 = poly_eval(evens(b), y2 * y2);
    let o2 = poly_eval(odds(b), y2 * y2);
    // y2 = -y (mod m)
    lemma_add_mul_mod(y, z, m);
    lemma_add_mul_mod(y, -1, m);
    lemma_mod_twice(y, m);
    assert((m - 1) % m == (-1) % m) by {
        vstd::arithmetic::div_mod::lemma_mod_add_multiples_vanish(-1, m);
    }
    assert(y2 % m == (-y) % m);
    lemma_add_mul_mod(y2, o2, m);
    lemma_add_mul_mod(-y, o, m);
    lemma_add_mul_mod(e2, y2 * o2, m);
    lemma_add_mul_mod(e, -y * o, m);
    assert(-y * o == -(o * y)) by (nonlinear_arith);
    assert(e + -(o * y) == e - o * y);
}

/// The transform input that a block of `2^p` elements of `a` at `off` holds
/// when it was permuted into bit-reversed order.
pub open spec fn unshuffled(a: Seq<int>, off: int, p: nat) -> Seq<int> {
    Seq::new(pow2(p), |j: int| a[off + bit_reverse(j as nat, p)])
}

/// `x` is a root of unity that a butterfly level over blocks of `n` elements
/// with twiddle stride `tc` can use: `x^(n/2) = -1`, and the table holds
/// `x^k` at `k * tc` for every `k < n/2` (the callers keep those positions
/// inside the table).
pub open spec fn is_level_root<S: PrimeField>(x: int, tw: Seq<S>, tc: int, n: int) -> bool {
    &&& pow(x, (n / 2) as nat) % S::modulus() == S::modulus() - 1
    &&& forall|k: int|
        0 <= k < n / 2 ==> #[trigger] twiddle_value(tw, k, tc) == pow(x, k as nat)
            % S::modulus()
}

/// The twiddle at position `k` of a level with stride `tc`.
pub open spec fn twiddle_value<S: PrimeField>(tw: Seq<S>, k: int, tc: int) -> int {
    tw[k * tc].value()
}

/// The block of `2^p` elements of `a` at `off` holds the transform of the
/// block of `a0` there, read in bit-reversed order, at every root that its
/// level can use. A block of one element is its own transform.
pub open spec fn block_transformed<S: PrimeField>(
    a: Seq<int>,
    a0: Seq<int>,
    off: int,
    p: nat,
    tw: Seq<S>,
    tc: int,
) -> bool {
    if p == 0 {
        a[off] == a0[off]
    } else {
        forall|x: int|
            #[trigger] is_level_root(x, tw, tc, pow2(p) as int) ==> forall|i: int|
                0 <= i < pow2(p) ==> #[trigger] a[off + i] == poly_eval(unshuffled(a0, off, p), pow(x, i as nat))
                    % S::modulus()
    }
}

/// What a butterfly adds to and subtracts from the left element `i` of a
/// block: the right element times the twiddle at `i * tc`, or the right
/// element itself for `i = 0`, whose twiddle is one.
pub open spec fn twiddled<S: PrimeField>(r: int, tw: Seq<S>, i: int, tc: int) -> int {
    if i == 0 {
        r
    } else {
        (r * twiddle_value(tw, i, tc)) % S::modulus()
    }
}

/// All values lie in `0..m`.
pub open spec fn reduced(a: Seq<int>, m: int) -> bool {
    forall|j: int| 0 <= j < a.len() ==> 0 <= #[trigger] a[j] < m
}

proof fn lemma_group_values_reduced<S: PrimeField, G: FftGroup<S>>(a: Seq<G>)
    ensures
        reduced(group_values(a), S::modulus()),
        group_values(a).len() == a.len(),
{
    assert forall|j: int| 0 <= j < a.len() implies 0 <= #[trigger] group_values(a)[j] < S::modulus() by {
        G::lemma_group_value_bound(a[j]);
    }
}

/// The two halves of a bit-reversed block hold its even and its odd elements.
proof fn lemma_unshuffled_halves(a0: Seq<int>, off: int, p: nat)
    requires
        p >= 1,
    ensures
        evens(unshuffled(a0, off, p)) =~= unshuffled(a0, off, (p - 1) as nat),
        odds(unshuffled(a0, off, p)) =~= unshuffled(a0, off + pow2((p - 1) as nat), (p - 1) as nat),
{
    let h = pow2((p - 1) as nat);
    vstd::arithmetic::power2::lemma_pow2_unfold(p);
    assert forall|j: int| 0 <= j < h implies #[trigger] bit_reverse((2 * j) as nat, p) == bit_reverse(j as nat, (p - 1) as nat)
        && bit_reverse((2 * j + 1) as nat, p) == h + bit_reverse(j as nat, (p - 1) as nat) by {
        assert(((2 * j) as nat) / 2 == j && ((2 * j) as nat) % 2 == 0);
        assert(((2 * j + 1) as nat) / 2 == j && ((2 * j + 1) as nat) % 2 == 1);
    }
}

/// A block and its input are read only inside the block.
proof fn lemma_block_frame<S: PrimeField>(
    a1: Seq<int>,
    a2: Seq<int>,
    b1: Seq<int>,
    b2: Seq<int>,
    off: int,
    p: nat,
    tw: Seq<S>,
    tc: int,
)
    requires
        block_transformed(a1, b1, off, p, tw, tc),
        0 <= off,
        off + pow2(p) <= a1.len(),
        forall|j: int| off <= j < off + pow2(p) ==> a1[j] == a2[j] && b1[j] == b2[j],
    ensures
        block_transformed(a2, b2, off, p, tw, tc),
{
    vstd::arithmetic::power2::lemma_pow2_pos(p);
    if p > 0 {
        assert forall|j: int| 0 <= j < pow2(p) implies off <= off + #[trigger] bit_reverse(j as nat, p) < off + pow2(p) by {
            lemma_bit_reverse_bound(j as nat, p);
        }
        assert(unshuffled(b1, off, p) =~= unshuffled(b2, off, p));
        assert forall|x: int| #[trigger] is_level_root(x, tw, tc, pow2(p) as int) implies forall|i: int|
            0 <= i < pow2(p) ==> #[trigger] a2[off + i] == poly_eval(unshuffled(b2, off, p), pow(x, i as nat))
                % S::modulus() by {
            assert forall|i: int| 0 <= i < pow2(p) implies #[trigger] a2[off + i] == poly_eval(
                unshuffled(b2, off, p),
                pow(x, i as nat),
            ) % S::modulus() by {
                assert(a1[off + i] == a2[off + i]);
            }
        }
    }
}

/// The square of a root of one level is a root of the level below, which
/// has half the block length and twice the twiddle stride.
proof fn lemma_square_level_root<S: PrimeField>(x: int, tw: Seq<S>, tc: int, h: int)
    requires
        h >= 2,
        h % 2 == 0,
        is_level_root(x, tw, tc, 2 * h),
    ensures
        is_level_root(x * x, tw, 2 * tc, h),
{
    let m = S::modulus();
    let xx = x * x;
    vstd::arithmetic::power::lemma_pow_multiplies(x, 2, (h / 2) as nat);
    vstd::arithmetic::power::lemma_pow_adds(x, 1, 1);
    vstd::arithmetic::power::lemma_pow1(x);
    assert(pow(x, 2) == xx);
    assert((2 * h) / 2 == h);
    assert(2 * (h / 2) == h);
    assert(pow(pow(x, 2), (h / 2) as nat) == pow(x, (2 * ((h / 2) as nat)) as nat));
    assert((2 * ((h / 2) as nat)) as nat == h as nat);
    assert(pow(xx, (h / 2) as nat) == pow(x, h as nat));
    assert(pow(x, (((2 * h) / 2)) as nat) % m == m - 1);
    assert(pow(xx, (h / 2) as nat) % m == m - 1);
    assert forall|k: int| 0 <= k < h / 2 implies #[trigger] twiddle_value(tw, k, 2 * tc)
        == pow(xx, k as nat) % m by {
        assert(k * (2 * tc) == (2 * k) * tc) by (nonlinear_arith);
        assert(0 <= 2 * k < (2 * h) / 2);
        assert(twiddle_value(tw, 2 * k, tc) == pow(x, (2 * k) as nat) % m);
        vstd::arithmetic::power::lemma_pow_multiplies(x, 2, k as nat);
    }
}

/// Merging two transformed halves with one butterfly pass transforms the
/// whole block.
proof fn lemma_merge_blocks<S: PrimeField>(
    mid: Seq<int>,
    fin: Seq<int>,
    a0: Seq<int>,
    off: int,
    p: nat,
    tw: Seq<S>,
    tc: int,
)
    requires
        p >= 1,
        0 <= off,
        off + pow2(p) <= mid.len(),
        reduced(mid, S::modulus()),
        reduced(a0, S::modulus()),
        block_transformed(mid, a0, off, (p - 1) as nat, tw, 2 * tc),
        block_transformed(mid, a0, off + pow2((p - 1) as nat), (p - 1) as nat, tw, 2 * tc),
        forall|i: int|
            0 <= i < pow2((p - 1) as nat) ==> #[trigger] fin[off + i] == (mid[off + i] + twiddled(
                mid[off + pow2((p - 1) as nat) + i],
                tw,
                i,
                tc,
            )) % S::modulus() && fin[off + pow2((p - 1) as nat) + i] == (mid[off + i] - twiddled(
                mid[off + pow2((p - 1) as nat) + i],
                tw,
                i,
                tc,
            )) % S::modulus(),
    ensures
        block_transformed(fin, a0, off, p, tw, tc),
{
    let h = pow2((p - 1) as nat);
    let m = S::modulus();
    let b = unshuffled(a0, off, p);
    vstd::arithmetic::power2::lemma_pow2_unfold(p);
    vstd::arithmetic::power2::lemma_pow2_pos((p - 1) as nat);
    lemma_unshuffled_halves(a0, off, p);
    assert forall|x: int| #[trigger] is_level_root(x, tw, tc, pow2(p) as int) implies forall|i: int|
        0 <= i < pow2(p) ==> #[trigger] fin[off + i] == poly_eval(b, pow(x, i as nat)) % m by {
        S::lemma_modulus();
        let xx = x * x;
        // The halves were transformed at x^2.
        if p >= 2 {
            vstd::arithmetic::power2::lemma_pow2_unfold((p - 1) as nat);
            lemma_square_level_root(x, tw, tc, h as int);
        }
        assert forall|i: int| 0 <= i < pow2(p) implies #[trigger] fin[off + i] == poly_eval(b, pow(x, i as nat)) % m by {
            let k = if i < h { i } else { i - h };
            let e = poly_eval(evens(b), pow(xx, k as nat));
            let o = poly_eval(odds(b), pow(xx, k as nat));
            let y = pow(x, k as nat);
            if p >= 2 {
                assert(mid[off + k] == e % m);
                assert(mid[off + h + k] == o % m);
            } else {
                vstd::arithmetic::power2::lemma2_to64();
                assert(h == 1 && k == 0);
                vstd::arithmetic::power::lemma_pow0(xx);
                assert(evens(b) =~= seq![a0[off]]);
                assert(odds(b) =~= seq![a0[off + 1]]);
                assert(poly_eval(seq![a0[off]].drop_first(), 1) == 0);
                assert(poly_eval(seq![a0[off + 1]].drop_first(), 1) == 0);
                vstd::arithmetic::div_mod::lemma_small_mod(a0[off] as nat, m as nat);
                vstd::arithmetic::div_mod::lemma_small_mod(a0[off + 1] as nat, m as nat);
            }
            // the twiddled value is o * y reduced
            lemma_mod_twice(o, m);
            if k == 0 {
                vstd::arithmetic::power::lemma_pow0(x);
                assert(o * y == o);
            } else {
                assert(twiddle_value(tw, k, tc) == y % m);
                lemma_add_mul_mod(o, y, m);
            }
            assert(twiddled(mid[off + h + k], tw, k, tc) == (o * y) % m);
            lemma_add_mul_mod(e, o * y, m);
            lemma_butterfly(b, x, h, k as nat, m);
            assert(fin[off + k] == (mid[off + k] + twiddled(mid[off + h + k], tw, k, tc)) % m);
            if i >= h {
                assert(fin[off + h + k] == (mid[off + k] - twiddled(mid[off + h + k], tw, k, tc)) % m);
                assert(fin[off + h + k] == (e - o * y) % m);
            }
        }
    }
}

/// One butterfly pass over the block of `2 * h` elements of `a` at `off`:
/// element `i` of the left half and element `i` of the right half become
/// `l + t` and `l - t`, `t` being the right one times the twiddle at `i * tc`.
fn butterfly_merge<S: PrimeField, G: FftGroup<S>>(
    a: &mut [G],
    off: usize,
    h: usize,
    tc: usize,
    twiddles: &[S],
)
    requires
        h >= 1,
        off + 2 * h <= old(a)@.len(),
        (h - 1) * tc < twiddles@.len(),
    ensures
        final(a)@.len() == old(a)@.len(),
        forall|j: int|
            0 <= j < old(a)@.len() && !(off <= j < off + 2 * h) ==> final(a)@[j] == old(a)@[j],
        forall|i: int|
            0 <= i < h ==> #[trigger] group_values(final(a)@)[off + i] == (group_values(old(a)@)[off + i]
                + twiddled(group_values(old(a)@)[off + h + i], twiddles@, i, tc as int)) % S::modulus()
                && group_values(final(a)@)[off + h + i] == (group_values(old(a)@)[off + i] - twiddled(
                group_values(old(a)@)[off + h + i],
                twiddles@,
                i,
                tc as int,
            )) % S::modulus(),
{
    let ghost a0 = a@;
    let len = a.len();
    let twl = twiddles.len();
    let mut i: usize = 0;
    while i < h
        invariant
            a@.len() == a0.len(),
            a0.len() == len,
            twiddles@.len() == twl,
            h >= 1,
            off + 2 * h <= a0.len(),
            (h - 1) * tc < twiddles@.len(),
            i <= h,
            forall|j: int|
                0 <= j < a0.len() && !(off <= j < off + i) && !(off + h <= j < off + h + i) ==> a@[j]
                    == a0[j],
            forall|k: int|
                0 <= k < i ==> #[trigger] group_values(a@)[off + k] == (group_values(a0)[off + k] + twiddled(
                    group_values(a0)[off + h + k],
                    twiddles@,
                    k,
                    tc as int,
                )) % S::modulus() && group_values(a@)[off + h + k] == (group_values(a0)[off + k] - twiddled(
                    group_values(a0)[off + h + k],
                    twiddles@,
                    k,
                    tc as int,
                )) % S::modulus(),
        decreases h - i,
    {
        let ghost old_a = a@;
        let l = a[off + i];
        let r = a[off + h + i];
        let t = if i == 0 {
            r
        } else {
            proof {
                assert(i * tc <= (h - 1) * tc) by (nonlinear_arith)
                    requires i <= h - 1;
            }
            r.scale(&twiddles[i * tc])
        };
        proof {
            G::lemma_group_value_bound(r);
        }
        a[off + i] = l.add_elem(&t);
        a[off + h + i] = l.sub_elem(&t);
        proof {
            let m = S::modulus();
            let tv = twiddled(group_values(a0)[off + h + i], twiddles@, i as int, tc as int);
            assert(l == a0[off + i]);
            assert(r == a0[off + h + i]);
            assert(t.group_value() == tv);
            assert(group_values(a@)[off + i] == (group_values(a0)[off + i] + tv) % m);
            assert(group_values(a@)[off + h + i] == (group_values(a0)[off + i] - tv) % m);
            assert forall|k: int| 0 <= k < i + 1 implies #[trigger] group_values(a@)[off + k] == (group_values(a0)[off + k] + twiddled(
                    group_values(a0)[off + h + k],
                    twiddles@,
                    k,
                    tc as int,
                )) % m && group_values(a@)[off + h + k] == (group_values(a0)[off + k] - twiddled(
                    group_values(a0)[off + h + k],
                    twiddles@,
                    k,
                    tc as int,
                )) % m by {
                if k < i {
                    assert(group_values(old_a)[off + k] == group_values(a@)[off + k]);
                    assert(group_values(old_a)[off + h + k] == group_values(a@)[off + h + k]);
                }
            }
        }
        i = i + 1;
    }
}

/// `n` is a power of two.
pub open spec fn is_power_of_two(n: nat) -> bool {
    exists|p: nat| #[trigger] pow2(p) == n
}

/// The exponent of a power of two.
pub open spec fn log2_exact(n: nat) -> nat {
    choose|p: nat| #[trigger] pow2(p) == n
}

fn butterfly_rec<S: PrimeField, G: FftGroup<S>>(
    a: &mut [G],
    off: usize,
    n: usize,
    p: Ghost<nat>,
    tc: usize,
    twiddles: &[S],
)
    requires
        p@ >= 1,
        n == pow2(p@),
        off + n <= old(a)@.len(),
        (n / 2 - 1) * tc < twiddles@.len(),
        n * tc <= usize::MAX,
    ensures
        final(a)@.len() == old(a)@.len(),
        forall|j: int| 0 <= j < old(a)@.len() && !(off <= j < off + n) ==> final(a)@[j] == old(a)@[j],
        block_transformed(group_values(final(a)@), group_values(old(a)@), off as int, p@, twiddles@, tc as int),
    decreases n,
{
    let ghost v0 = group_values(a@);
    proof {
        vstd::arithmetic::power2::lemma_pow2_unfold(p@);
        lemma_group_values_reduced::<S, G>(a@);
    }
    let len = a.len();
    let h = n / 2;
    if n == 2 {
        butterfly_merge(a, off, 1, tc, twiddles);
        proof {
            vstd::arithmetic::power2::lemma2_to64();
            if p@ != 1 {
                vstd::arithmetic::power2::lemma_pow2_strictly_increases(1, p@);
            }
            lemma_group_values_reduced::<S, G>(a@);
            lemma_merge_blocks(v0, group_values(a@), v0, off as int, p@, twiddles@, tc as int);
        }
    } else {
        proof {
            vstd::arithmetic::power2::lemma_pow2_pos((p@ - 1) as nat);
            if p@ == 1 {
                vstd::arithmetic::power2::lemma2_to64();
            }
            vstd::arithmetic::power2::lemma_pow2_unfold((p@ - 1) as nat);
            assert((h / 2 - 1) * (tc * 2) <= (n / 2 - 1) * tc) by (nonlinear_arith)
                requires h == n / 2, h >= 2, h % 2 == 0;
            assert(tc * 2 <= n * tc) by (nonlinear_arith)
                requires n >= 4;
            assert(h * (tc * 2) == n * tc) by (nonlinear_arith)
                requires n == 2 * h;
        }
        butterfly_rec(a, off, h, Ghost((p@ - 1) as nat), tc * 2, twiddles);
        let ghost v1 = group_values(a@);
        butterfly_rec(a, off + h, h, Ghost((p@ - 1) as nat), tc * 2, twiddles);
        let ghost v2 = group_values(a@);
        proof {
            lemma_group_values_reduced::<S, G>(a@);
            lemma_block_frame(v1, v2, v0, v0, off as int, (p@ - 1) as nat, twiddles@, (tc * 2) as int);
            lemma_block_frame(v2, v2, v1, v0, (off + h) as int, (p@ - 1) as nat, twiddles@, (tc * 2) as int);
        }
        butterfly_merge(a, off, h, tc, twiddles);
        proof {
            lemma_group_values_reduced::<S, G>(a@);
            lemma_merge_blocks(v2, group_values(a@), v0, off as int, p@, twiddles@, tc as int);
        }
    }
}

/// Butterfly network on a sequence that is already in bit-reversed order:
/// the two halves are transformed at the square of the root, then merged by
/// one butterfly pass. `twiddle_chunk` is the stride between the twiddles
/// that this level reads; for every root `x` that the table and the stride
/// describe, element `i` becomes the value at `x^i` of the input read in
/// bit-reversed order.
pub fn recursive_butterfly_arithmetic<S: PrimeField, G: FftGroup<S>>(
    a: &mut [G],
    n: usize,
    twiddle_chunk: usize,
    twiddles: &[S],
)
    requires
        n == old(a)@.len(),
        n >= 2,
        is_power_of_two(n as nat),
        (n / 2 - 1) * twiddle_chunk < twiddles@.len(),
        n * twiddle_chunk <= usize::MAX,
    ensures
        final(a)@.len() == old(a)@.len(),
        block_transformed(
            group_values(final(a)@),
            group_values(old(a)@),
            0,
            log2_exact(n as nat),
            twiddles@,
            twiddle_chunk as int,
        ),
{
    let ghost p = log2_exact(n as nat);
    proof {
        vstd::arithmetic::power2::lemma2_to64();
        if p == 0 {
            assert(false);
        }
    }
    butterfly_rec(a, 0, n, Ghost(p), twiddle_chunk, twiddles);
}

proof fn lemma_multiple_gap(off: int, start: int, size: int)
    requires
        size > 0,
        0 <= off < start,
        off % size == 0,
        start % size == 0,
    ensures
        off + size <= start,
{
    vstd::arithmetic::div_mod::lemma_fundamental_div_mod(off, size);
    vstd::arithmetic::div_mod::lemma_fundamental_div_mod(start, size);
    let q1 = off / size;
    let q2 = start / size;
    assert(q1 < q2) by (nonlinear_arith)
        requires off == size * q1, start == size * q2, off < start, size > 0;
    assert(off + size <= start) by (nonlinear_arith)
        requires off == size * q1, start == size * q2, q1 + 1 <= q2, size > 0;
}

proof fn lemma_multiple_halves(start: int, h: int)
    requires
        h > 0,
        start % (2 * h) == 0,
    ensures
        start % h == 0,
        (start + h) % h == 0,
        (start + 2 * h) % (2 * h) == 0,
{
    vstd::arithmetic::div_mod::lemma_fundamental_div_mod(start, 2 * h);
    let q = start / (2 * h);
    assert(start == (2 * q) * h) by (nonlinear_arith)
        requires start == (2 * h) * q;
    vstd::arithmetic::div_mod::lemma_mod_multiples_basic(2 * q, h);
    assert(start + h == (2 * q + 1) * h) by (nonlinear_arith)
        requires start == (2 * q) * h;
    vstd::arithmetic::div_mod::lemma_mod_multiples_basic(2 * q + 1, h);
    assert(start + 2 * h == (q + 1) * (2 * h)) by (nonlinear_arith)
        requires start == (2 * h) * q;
    vstd::arithmetic::div_mod::lemma_mod_multiples_basic(q + 1, 2 * h);
}

/// Every block of `2^p` elements at a multiple of `2^p` is transformed, with
/// the stride of its level.
pub open spec fn level_done<S: PrimeField>(a: Seq<int>, a0: Seq<int>, p: nat, tw: Seq<S>, tc: int) -> bool {
    forall|off: int|
        0 <= off < a.len() && off % (pow2(p) as int) == 0 ==> #[trigger] block_transformed(a, a0, off, p, tw, tc)
}

/// The butterfly passes of the in-place iterative transform: pass `s` merges
/// neighbouring blocks of `2^s` elements into blocks of `2^(s+1)`.
fn iterative_butterflies<S: PrimeField, G: FftGroup<S>>(a: &mut [G], log_n: u32, twiddles: &[S])
    requires
        1 <= log_n < 64,
        old(a)@.len() == pow2(log_n as nat),
        twiddles@.len() == old(a)@.len() / 2,
    ensures
        final(a)@.len() == old(a)@.len(),
        block_transformed(group_values(final(a)@), group_values(old(a)@), 0, log_n as nat, twiddles@, 1),
{
    let ghost v0 = group_values(a@);
    let n = a.len();
    let mut chunk: usize = 2;
    let mut twiddle_chunk = n / 2;
    let mut pass: u32 = 0;
    proof {
        lemma_group_values_reduced::<S, G>(a@);
        vstd::arithmetic::power2::lemma2_to64();
        vstd::arithmetic::power2::lemma_pow2_adds(1, (log_n - 1) as nat);
        assert forall|off: int| 0 <= off < n && off % (pow2(0) as int) == 0 implies #[trigger] block_transformed(
            group_values(a@),
            v0,
            off,
            0,
            twiddles@,
            n as int,
        ) by {}
    }
    while pass < log_n
        invariant
            a@.len() == n,
            n == pow2(log_n as nat),
            twiddles@.len() == n / 2,
            1 <= log_n < 64,
            pass <= log_n,
            pass < log_n ==> chunk == pow2((pass + 1) as nat),
            pass < log_n ==> twiddle_chunk * chunk == n,
            pass < log_n ==> twiddle_chunk == pow2((log_n - pass - 1) as nat),
            reduced(v0, S::modulus()),
            v0.len() == n,
            level_done(group_values(a@), v0, pass as nat, twiddles@, pow2((log_n - pass) as nat) as int),
        decreases log_n - pass,
    {
        let half = chunk / 2;
        let mut start: usize = 0;
        let ghost p = pass as nat;
        let ghost stride = pow2((log_n - pass) as nat) as int;
        proof {
            vstd::arithmetic::power2::lemma_pow2_unfold((pass + 1) as nat);
            vstd::arithmetic::power2::lemma_pow2_pos(p);
            vstd::arithmetic::power2::lemma_pow2_unfold((log_n - pass) as nat);
            assert(stride == 2 * twiddle_chunk);
            vstd::arithmetic::power2::lemma_pow2_pos((log_n - pass - 1) as nat);
            assert((half - 1) * twiddle_chunk < twiddles@.len()) by (nonlinear_arith)
                requires twiddle_chunk * (2 * half) == n, twiddles@.len() == n / 2, half >= 1, twiddle_chunk >= 1;
            vstd::arithmetic::div_mod::lemma_mod_multiples_basic(twiddle_chunk as int, chunk as int);
            assert(n % chunk == 0) by (nonlinear_arith)
                requires n == twiddle_chunk * chunk, (twiddle_chunk * chunk) % (chunk as int) == 0;
        }
        while start < n
            invariant
                a@.len() == n,
                twiddles@.len() == n / 2,
                half >= 1,
                chunk == 2 * half,
                half == pow2(p),
                chunk == pow2(p + 1),
                n % chunk == 0,
                start % chunk == 0,
                start <= n,
                (half - 1) * twiddle_chunk < twiddles@.len(),
                stride == 2 * twiddle_chunk,
                reduced(v0, S::modulus()),
                v0.len() == n,
                forall|off: int|
                    0 <= off < start && off % (chunk as int) == 0 ==> #[trigger] block_transformed(
                        group_values(a@),
                        v0,
                        off,
                        p + 1,
                        twiddles@,
                        twiddle_chunk as int,
                    ),
                forall|off: int|
                    start <= off < n && off % (half as int) == 0 ==> #[trigger] block_transformed(
                        group_values(a@),
                        v0,
                        off,
                        p,
                        twiddles@,
                        stride,
                    ),
            decreases n - start,
        {
            let ghost v1 = group_values(a@);
            proof {
                lemma_group_values_reduced::<S, G>(a@);
                lemma_multiple_halves(start as int, half as int);
                if start + chunk > n {
                    lemma_multiple_gap(start as int, n as int, chunk as int);
                }
            }
            butterfly_merge(a, start, half, twiddle_chunk, twiddles);
            proof {
                let v2 = group_values(a@);
                assert(block_transformed(v1, v0, start as int, p, twiddles@, stride));
                assert(block_transformed(v1, v0, start + half, p, twiddles@, stride));
                lemma_merge_blocks(v1, v2, v0, start as int, p + 1, twiddles@, twiddle_chunk as int);
                assert forall|off: int| 0 <= off < start + chunk && off % (chunk as int) == 0 implies #[trigger] block_transformed(
                    v2,
                    v0,
                    off,
                    p + 1,
                    twiddles@,
                    twiddle_chunk as int,
                ) by {
                    if off < start {
                        lemma_multiple_gap(off, start as int, chunk as int);
                        lemma_block_frame(v1, v2, v0, v0, off, p + 1, twiddles@, twiddle_chunk as int);
                    } else if off > start {
                        lemma_multiple_gap(start as int, off, chunk as int);
                    }
                }
                assert forall|off: int| start + chunk <= off < n && off % (half as int) == 0 implies #[trigger] block_transformed(
                    v2,
                    v0,
                    off,
                    p,
                    twiddles@,
                    stride,
                ) by {
                    assert(block_transformed(v1, v0, off, p, twiddles@, stride));
                    lemma_multiple_halves(n as int, half as int);
                    lemma_multiple_gap(off, n as int, half as int);
                    lemma_block_frame(v1, v2, v0, v0, off, p, twiddles@, stride);
                }
            }
            start = start + chunk;
        }
        proof {
            let v = group_values(a@);
            assert forall|off: int| 0 <= off < v.len() && off % (pow2(p + 1) as int) == 0 implies #[trigger] block_transformed(
                v,
                v0,
                off,
                p + 1,
                twiddles@,
                pow2((log_n - (pass + 1)) as nat) as int,
            ) by {
                assert(block_transformed(v, v0, off, p + 1, twiddles@, twiddle_chunk as int));
            }
            if pass + 1 < log_n {
                vstd::arithmetic::power2::lemma_pow2_unfold((log_n - pass - 1) as nat);
                vstd::arithmetic::power2::lemma_pow2_unfold((pass + 2) as nat);
                assert(twiddle_chunk / 2 * (chunk * 2) == n) by (nonlinear_arith)
                    requires twiddle_chunk * chunk == n, twiddle_chunk % 2 == 0;
                if pass + 2 < log_n {
                    vstd::arithmetic::power2::lemma_pow2_strictly_increases((pass + 2) as nat, log_n as nat);
                }
            }
        }
        if pass + 1 < log_n {
            chunk = chunk * 2;
        }
        twiddle_chunk = twiddle_chunk / 2;
        pass = pass + 1;
    }
    proof {
        vstd::arithmetic::power2::lemma2_to64();
        vstd::arithmetic::power2::lemma_pow2_pos(log_n as nat);
        vstd::arithmetic::div_mod::lemma_small_mod(0, pow2(log_n as nat));
        assert(0int % (pow2(log_n as nat) as int) == 0);
        assert(block_transformed(group_values(a@), v0, 0, log_n as nat, twiddles@, 1));
    }
}

/// Reverses the lowest `l` bits of `n`.
pub fn bitreverse(n: usize, l: usize) -> (r: usize)
    requires
        l < 64,
        pow2(l as nat) <= usize::MAX as nat + 1,
    ensures
        r == bit_reverse(n as nat, l as nat),
{
    let mut r: usize = 0;
    let mut m = n;
    let mut i: usize = 0;
    proof {
        vstd::arithmetic::power2::lemma_pow2_pos(l as nat);
        assert(pow2(0) == 1) by {
            vstd::arithmetic::power2::lemma2_to64();
        }
    }
    while i < l
        invariant
            i <= l < 64,
            pow2(l as nat) <= usize::MAX as nat + 1,
            r < pow2(i as nat),
            bit_reverse(n as nat, l as nat) == r * pow2((l - i) as nat) + bit_reverse(m as nat, (l - i) as nat),
        decreases l - i,
    {
        proof {
            vstd::arithmetic::power2::lemma_pow2_unfold((i + 1) as nat);
            vstd::arithmetic::power2::lemma_pow2_unfold((l - i) as nat);
            if i + 1 < l {
                vstd::arithmetic::power2::lemma_pow2_strictly_increases((i + 1) as nat, l as nat);
            }
            let p = pow2((l - i - 1) as nat);
            assert(r * 2 + 1 <= 2 * pow2(i as nat));
            assert(r * (2 * p) + ((m % 2) * p + bit_reverse((m / 2) as nat, (l - i - 1) as nat))
                == (2 * r + m % 2) * p + bit_reverse((m / 2) as nat, (l - i - 1) as nat)) by (nonlinear_arith);
        }
        r = r * 2 + m % 2;
        m = m / 2;
        i = i + 1;
    }
    proof {
        vstd::arithmetic::power2::lemma2_to64();
        assert(r * pow2(0) == r);
    }
    r
}

/// The exponent of the largest power of two not above `num`.
pub fn log2_floor(num: usize) -> (r: u32)
    requires
        num > 0,
    ensures
        pow2(r as nat) <= num < pow2((r + 1) as nat),
{
    let mut pow: u32 = 0;
    let mut rest = num;
    proof {
        vstd::arithmetic::power2::lemma2_to64();
    }
    while rest >= 2
        invariant
            rest >= 1,
            pow < 64,
            pow2(pow as nat) * rest <= num < pow2(pow as nat) * (rest + 1),
        decreases rest,
    {
        proof {
            vstd::arithmetic::power2::lemma_pow2_unfold((pow + 1) as nat);
            let p = pow2(pow as nat);
            vstd::arithmetic::power2::lemma_pow2_pos(pow as nat);
            assert(p * rest == (2 * p) * (rest / 2) + p * (rest % 2)) by (nonlinear_arith)
                requires rest == 2 * (rest / 2) + rest % 2;
            assert(p * (rest + 1) <= (2 * p) * (rest / 2 + 1)) by (nonlinear_arith)
                requires rest == 2 * (rest / 2) + rest % 2, rest % 2 <= 1, p > 0;
            assert(p * 2 <= p * rest) by (nonlinear_arith)
                requires rest >= 2, p > 0;
            if pow == 63 {
                vstd::arithmetic::power2::lemma2_to64();
                vstd::arithmetic::power2::lemma_pow2_unfold(64);
                assert(false);
            }
        }
        rest = rest / 2;
        pow = pow + 1;
    }
    proof {
        vstd::arithmetic::power2::lemma_pow2_unfold((pow + 1) as nat);
        assert(rest == 1);
    }
    pow
}

/// `omega` has order exactly `2^log_n`: for `log_n >= 1`, `omega^(2^(log_n - 1)) = -1`.
pub open spec fn is_primitive_root<S: PrimeField>(omega: S, log_n: nat) -> bool {
    is_primitive_root_value(omega.value(), log_n, S::modulus())
}

/// Permutes `a` into bit-reversed order: element `j` moves to position
/// `bit_reverse(j, log_n)`.
fn bit_reverse_permute<T: Copy>(a: &mut [T], log_n: u32)
    requires
        log_n < 64,
        old(a)@.len() == pow2(log_n as nat),
    ensures
        final(a)@.len() == old(a)@.len(),
        forall|j: int| 0 <= j < old(a)@.len() ==> #[trigger] final(a)@[j] == old(a)@[bit_reverse(j as nat, log_n as nat) as int],
{
    let ghost a0 = a@;
    let n = a.len();
    let ghost l = log_n as nat;
    let mut k: usize = 0;
    while k < n
        invariant
            a@.len() == n == a0.len() == pow2(l),
            l == log_n as nat,
            log_n < 64,
            k <= n,
            forall|j: int|
                0 <= j < n ==> #[trigger] a@[j] == (if j < k || bit_reverse(j as nat, l) < k {
                    a0[bit_reverse(j as nat, l) as int]
                } else {
                    a0[j]
                }),
        decreases n - k,
    {
        let rk = bitreverse(k, log_n as usize);
        proof {
            lemma_bit_reverse_bound(k as nat, l);
            lemma_bit_reverse_involution(k as nat, l);
        }
        if k < rk {
            let x = a[k];
            let y = a[rk];
            a[k] = y;
            a[rk] = x;
        }
        proof {
            assert forall|j: int| 0 <= j < n implies #[trigger] a@[j] == (if j < k + 1 || bit_reverse(j as nat, l) < k + 1 {
                a0[bit_reverse(j as nat, l) as int]
            } else {
                a0[j]
            }) by {
                lemma_bit_reverse_involution(j as nat, l);
                lemma_bit_reverse_bound(j as nat, l);
            }
        }
        k = k + 1;
    }
    proof {
        assert forall|j: int| 0 <= j < a0.len() implies #[trigger] a@[j] == a0[bit_reverse(j as nat, l) as int] by {
            lemma_bit_reverse_bound(j as nat, l);
        }
    }
}

/// Radix-2 FFT in place: `a` (of length `2^log_n`), read as the coefficients
/// of a polynomial, becomes its values at the powers `omega^i`, `omega`
/// being a primitive `2^log_n`-th root of unity. The input is permuted into
/// bit-reversed order, the `2^(log_n - 1)` twiddles `omega^k` are tabulated,
/// and the butterfly passes run either iteratively, where there are no more
/// passes than the worker pool has doublings, or recursively.
pub fn best_fft<S: PrimeField, G: FftGroup<S>>(a: &mut [G], omega: S, log_n: u32)
    requires
        old(a)@.len() == pow2(log_n as nat),
        is_primitive_root(omega, log_n as nat),
    ensures
        final(a)@.len() == old(a)@.len(),
        forall|i: int|
            0 <= i < old(a)@.len() ==> #[trigger] group_values(final(a)@)[i] == poly_eval(
                group_values(old(a)@),
                pow(omega.value(), i as nat),
            ) % S::modulus(),
{
    let ghost v0 = group_values(a@);
    let threads = current_num_threads();
    let log_threads = log2_floor(threads);
    let n = a.len();
    proof {
        lemma_group_values_reduced::<S, G>(a@);
        if log_n >= 64 {
            vstd::arithmetic::power2::lemma2_to64();
            if log_n > 64 {
                vstd::arithmetic::power2::lemma_pow2_strictly_increases(64, log_n as nat);
            }
        }
    }
    bit_reverse_permute(a, log_n);
    let ghost v1 = group_values(a@);
    let twiddles = powers(&omega, n / 2);
    let ghost l = log_n as nat;
    if log_n == 0 {
        proof {
            vstd::arithmetic::power2::lemma2_to64();
            vstd::arithmetic::power::lemma_pow0(omega.value());
            assert(bit_reverse(0, 0) == 0);
            assert(a@[0] == old(a)@[0]);
            assert(v0.drop_first() =~= Seq::<int>::empty());
            assert(poly_eval(v0.drop_first(), 1) == 0);
            assert(poly_eval(v0, 1) == v0[0] + 1 * poly_eval(v0.drop_first(), 1));
            assert(poly_eval(v0, pow(omega.value(), 0)) == v0[0]);
            vstd::arithmetic::div_mod::lemma_small_mod(v0[0] as nat, S::modulus() as nat);
            assert(group_values(a@)[0] == v0[0]);
        }
        return;
    }
    proof {
        vstd::arithmetic::power2::lemma_pow2_unfold(l);
        vstd::arithmetic::power2::lemma_pow2_pos((l - 1) as nat);
    }
    if log_n <= log_threads {
        iterative_butterflies(a, log_n, twiddles.as_slice());
    } else {
        proof {
            assert(pow2(l) == n);
            assert((n / 2 - 1) * 1 < twiddles@.len());
        }
        recursive_butterfly_arithmetic(a, n, 1, twiddles.as_slice());
        proof {
            assert(pow2(log2_exact(n as nat)) == n);
            if log2_exact(n as nat) != l {
                if log2_exact(n as nat) < l {
                    vstd::arithmetic::power2::lemma_pow2_strictly_increases(log2_exact(n as nat), l);
                } else {
                    vstd::arithmetic::power2::lemma_pow2_strictly_increases(l, log2_exact(n as nat));
                }
            }
        }
    }
    proof {
        let w = omega.value();
        let m = S::modulus();
        assert(unshuffled(v1, 0, l) =~= v0) by {
            assert forall|j: int| 0 <= j < n implies #[trigger] unshuffled(v1, 0, l)[j] == v0[j] by {
                lemma_bit_reverse_bound(j as nat, l);
                lemma_bit_reverse_involution(j as nat, l);
            }
        }
        assert forall|k: int| 0 <= k < (n as int) / 2 implies #[trigger] twiddle_value(twiddles@, k, 1) == pow(w, k as nat) % m by {
            assert(k * 1 == k);
        }
        assert(is_level_root(w, twiddles@, 1, n as int));
        assert(pow2(l) as int == n as int);
        assert(is_level_root(w, twiddles@, 1, pow2(l) as int));
        assert(block_transformed(group_values(a@), v1, 0, l, twiddles@, 1));
        assert forall|i: int| 0 <= i < n implies #[trigger] group_values(a@)[i] == poly_eval(v0, pow(w, i as nat)) % m by {
            assert(group_values(a@)[0 + i] == poly_eval(unshuffled(v1, 0, l), pow(w, i as nat)) % m);
        }
    }
}

/// `w` has order exactly `2^log_n` modulo `m`.
pub open spec fn is_primitive_root_value(w: int, log_n: nat, m: int) -> bool {
    log_n >= 1 ==> pow(w, pow2((log_n - 1) as nat)) % m == m - 1
}

/// The root at which `g_to_lagrange` transforms `2^k` points: the field's
/// inverse `2^s`-th root of unity raised to `2^(s-k)`, the inverse of the
/// field's `2^k`-th root of unity.
pub open spec fn lagrange_root<S: PrimeField>(k: nat) -> int {
    pow(S::root_of_unity_inv_value(), pow2((S::two_adicity() - k) as nat))
}

/// Converts a commitment basis in coefficient form to Lagrange form: the
/// inverse transform of the `2^k` projective points at `lagrange_root(k)`,
/// scaled by `2^-k` (`half(m)^k`), then put into affine form.
pub fn g_to_lagrange<C: CurveAffine>(g_projective: Vec<C::Curve>, k: u32) -> (r: Vec<C>)
    requires
        g_projective@.len() == pow2(k as nat),
        k <= C::Scalar::two_adicity(),
    ensures
        r@.len() == g_projective@.len(),
        forall|i: int|
            0 <= i < r@.len() ==> #[trigger] r@[i].point_value() == (pow(half(C::Scalar::modulus()), k as nat)
                * poly_eval(group_values(g_projective@), pow(lagrange_root::<C::Scalar>(k as nat), i as nat)))
                % C::Scalar::modulus(),
{
    let ghost m = C::Scalar::modulus();
    proof {
        C::Scalar::lemma_modulus();
        vstd::arithmetic::div_mod::lemma_small_mod(2, m as nat);
    }
    let two = C::Scalar::from_u64(2);
    let two_inv = two.invert().unwrap();
    let n_inv = two_inv.pow_vartime(k as u64);
    let root_inv = C::Scalar::root_of_unity_inv();
    let s = C::Scalar::two_adicity_s();
    let ghost w0 = root_inv.value();
    let mut omega_inv = root_inv;
    let mut t = k;
    proof {
        vstd::arithmetic::power::lemma_pow1(w0);
        vstd::arithmetic::power2::lemma2_to64();
        C::Scalar::lemma_value_bound(root_inv);
        vstd::arithmetic::div_mod::lemma_small_mod(w0 as nat, m as nat);
    }
    while t < s
        invariant
            k <= t <= s,
            s == C::Scalar::two_adicity(),
            m == C::Scalar::modulus(),
            m > 2,
            omega_inv.value() == pow(w0, pow2((t - k) as nat)) % m,
        decreases s - t,
    {
        let squared = omega_inv.mul(&omega_inv);
        proof {
            let e = pow2((t - k) as nat);
            let p = pow(w0, e);
            vstd::arithmetic::div_mod::lemma_mul_mod_noop(p, p, m);
            vstd::arithmetic::power::lemma_pow_adds(w0, e, e);
            vstd::arithmetic::power2::lemma_pow2_unfold((t + 1 - k) as nat);
            assert(e + e == pow2((t + 1 - k) as nat));
        }
        omega_inv = squared;
        t = t + 1;
    }
    let ghost w = omega_inv.value();
    proof {
        // omega_inv = w0^(2^(s-k)) has order 2^k.
        if k >= 1 {
            vstd::arithmetic::power::lemma_pow_mod_noop(pow(w0, pow2((s - k) as nat)), pow2((k - 1) as nat), m);
            vstd::arithmetic::power::lemma_pow_multiplies(w0, pow2((s - k) as nat), pow2((k - 1) as nat));
            vstd::arithmetic::power2::lemma_pow2_adds((s - k) as nat, (k - 1) as nat);
            assert((s - k) + (k - 1) == s - 1);
        }
        assert(is_primitive_root_value(w, k as nat, m));
    }
    let mut g_lagrange_projective = g_projective;
    best_fft(g_lagrange_projective.as_mut_slice(), omega_inv, k);
    let ghost transformed = group_values(g_lagrange_projective@);
    let n = g_lagrange_projective.len();
    let ghost nv = n_inv.value();
    let scale_chunk = move |g: &mut [C::Curve], _start: usize|
        ensures
            final(g)@.len() == old(g)@.len(),
            forall|t: int|
                0 <= t < old(g)@.len() ==> #[trigger] final(g)@[t].group_value() == (old(g)@[t].group_value()
                    * nv) % C::Scalar::modulus(),
    {
        let ghost g0 = g@;
        let mut t: usize = 0;
        while t < g.len()
            invariant
                g@.len() == g0.len(),
                t <= g@.len(),
                nv == n_inv.value(),
                forall|u: int| 0 <= u < t ==> #[trigger] g@[u].group_value() == (g0[u].group_value() * nv)
                    % C::Scalar::modulus(),
                forall|u: int| t <= u < g@.len() ==> #[trigger] g@[u] == g0[u],
            decreases g@.len() - t,
        {
            let scaled = g[t].scale(&n_inv);
            g[t] = scaled;
            t = t + 1;
        }
    };
    let ghost before = g_lagrange_projective@;
    parallelize(g_lagrange_projective.as_mut_slice(), scale_chunk);
    proof {
        let fin = g_lagrange_projective@;
        let nn = before.len() as int;
        let t = choose|t: int|
            #[trigger] is_worker_count(t) && forall|kk: int|
                #[trigger] is_chunk_index(kk, chunk_count(nn, t)) ==> exists|s: &mut [C::Curve]|
                    (*s)@ == before.subrange(kk * chunk_len(nn, t), chunk_stop(kk, chunk_len(nn, t), chunk_count(nn, t), nn))
                        && final(s)@ == fin.subrange(kk * chunk_len(nn, t), chunk_stop(kk, chunk_len(nn, t), chunk_count(nn, t), nn))
                        && #[trigger] scale_chunk.ensures((s, (kk * chunk_len(nn, t)) as usize), ());
        let c = chunk_len(nn, t);
        let cnt = chunk_count(nn, t);
        if nn >= 1 {
            lemma_chunk_layout(nn, t);
        }
        assert forall|j: int| 0 <= j < n implies #[trigger] group_values(fin)[j] == (transformed[j] * nv) % m by {
            vstd::arithmetic::div_mod::lemma_fundamental_div_mod(j, c);
            vstd::arithmetic::div_mod::lemma_mod_bound(j, c);
            vstd::arithmetic::div_mod::lemma_div_pos_is_pos(j, c);
            let q = j / c;
            assert(cnt >= 1);
            let kk = if q < cnt { q } else { cnt - 1 };
            assert(q * c <= j) by (nonlinear_arith)
                requires j == c * q + j % c, j % c >= 0;
            assert(j < q * c + c) by (nonlinear_arith)
                requires j == c * q + j % c, j % c < c;
            assert(kk * c <= j) by (nonlinear_arith)
                requires kk <= q, q * c <= j, c >= 1, kk >= 0;
            assert(is_chunk_index(kk, cnt));
            let e = chunk_stop(kk, c, cnt, nn);
            if kk + 1 != cnt {
                assert(kk == q);
                assert(e == (kk + 1) * c);
                assert((kk + 1) * c == q * c + c) by (nonlinear_arith)
                    requires kk == q;
                assert((kk + 1) * c <= (cnt - 1) * c) by (nonlinear_arith)
                    requires kk + 1 <= cnt - 1, c >= 1;
            }
            assert(e <= nn);
            assert(j < e);
            let s = choose|s: &mut [C::Curve]|
                (*s)@ == before.subrange(kk * c, e) && final(s)@ == fin.subrange(kk * c, e)
                    && #[trigger] scale_chunk.ensures((s, (kk * c) as usize), ());
            assert(fin[j] == final(s)@[j - kk * c]);
            assert(before[j] == (*s)@[j - kk * c]);
        }
    }
    let mut g_lagrange: Vec<C> = Vec::new();
    let mut i: usize = 0;
    while i < n
        invariant
            i <= n,
            n == g_lagrange_projective@.len(),
            transformed.len() == n,
            g_lagrange@.len() == i,
            forall|j: int| 0 <= j < n ==> #[trigger] group_values(g_lagrange_projective@)[j] == (transformed[j] * nv) % m,
            forall|j: int| 0 <= j < i ==> #[trigger] g_lagrange@[j].point_value() == (transformed[j] * nv) % m,
            m == C::Scalar::modulus(),
        decreases n - i,
    {
        g_lagrange.push(C::from_curve(&g_lagrange_projective[i]));
        proof {
            assert(group_values(g_lagrange_projective@)[i as int] == g_lagrange_projective@[i as int].group_value());
        }
        i = i + 1;
    }
    proof {
        let tv = two_inv.value();
        let nv2 = n_inv.value();
        let hm = half(m);
        let hk = pow(hm, k as nat);
        let big = lagrange_root::<C::Scalar>(k as nat);
        // two_inv is (m + 1) / 2.
        C::Scalar::lemma_value_bound(two_inv);
        assert(two.value() == 2);
        assert((2 * tv) % m == 1);
        vstd::arithmetic::div_mod::lemma_fundamental_div_mod(2 * tv, m);
        vstd::arithmetic::div_mod::lemma_mod_bound(2 * tv, m);
        let q = (2 * tv) / m;
        assert(q == 0 || q == 1) by (nonlinear_arith)
            requires 2 * tv == m * q + 1, 0 <= tv < m, m > 2;
        if q == 0 {
            assert(2 * tv == m * q + 1);
            assert(m * q == 0) by (nonlinear_arith)
                requires q == 0;
            assert(false);
        }
        assert(m * q == m) by (nonlinear_arith)
            requires q == 1;
        assert(tv == hm);
        assert(nv2 == hk % m);
        assert(w == big % m);
        assert forall|j: int| 0 <= j < n implies #[trigger] g_lagrange@[j].point_value() == (hk * poly_eval(
            group_values(g_projective@),
            pow(big, j as nat),
        )) % m by {
            let x = poly_eval(group_values(g_projective@), pow(w, j as nat));
            let y = poly_eval(group_values(g_projective@), pow(big, j as nat));
            vstd::arithmetic::power::lemma_pow_mod_noop(big, j as nat, m);
            lemma_mod_twice(pow(big, j as nat), m);
            vstd::arithmetic::power::lemma_pow_mod_noop(w, j as nat, m);
            lemma_poly_eval_congruent(group_values(g_projective@), pow(w, j as nat), pow(big, j as nat), m);
            assert(transformed[j] == x % m);
            lemma_add_mul_mod(x, hk, m);
            lemma_add_mul_mod(y, hk, m);
            assert(x * hk == hk * x) by (nonlinear_arith);
            assert(y * hk == hk * y) by (nonlinear_arith);
            lemma_mod_twice(x, m);
            lemma_mod_twice(hk, m);
        }
    }
    g_lagrange
}

/// `g_to_lagrange` undoes a forward transform: for a primitive `2^k`-th root
/// `omega` whose inverse is `lagrange_root(k)`, the values that
/// `g_to_lagrange` gives for the transform of `a` at `omega` (as `best_fft`
/// states it) are `a` again.
pub proof fn g_to_lagrange_undoes_fft<S: PrimeField>(a: Seq<int>, omega: int, k: nat)
    requires
        a.len() == pow2(k),
        reduced(a, S::modulus()),
        is_primitive_root_value(omega, k, S::modulus()),
        (omega * lagrange_root::<S>(k)) % S::modulus() == 1,
    ensures
        forall|i: int|
            0 <= i < a.len() ==> #[trigger] ((pow(half(S::modulus()), k) * poly_eval(
                transform(a, omega, S::modulus()),
                pow(lagrange_root::<S>(k), i as nat),
            )) % S::modulus()) == a[i],
{
    let m = S::modulus();
    S::lemma_modulus();
    fft_round_trip_scaled(a, omega, lagrange_root::<S>(k), k, m);
    assert forall|i: int| 0 <= i < a.len() implies #[trigger] ((pow(half(m), k) * poly_eval(
        transform(a, omega, m),
        pow(lagrange_root::<S>(k), i as nat),
    )) % m) == a[i] by {
        vstd::arithmetic::div_mod::lemma_small_mod(a[i] as nat, m as nat);
    }
}

} // verus!
