//! Multi-scalar multiplication: the windowed bucket method, its chunked
//! dispatch, and double-and-add for small inputs.

use vstd::prelude::*;
use vstd::arithmetic::power::pow;
use vstd::arithmetic::power2::pow2;
use crate::field::{
    le_value, lemma_add_mul_mod, lemma_pow256, lemma_le_value_bound, lemma_le_value_split, lemma_le_value_zeros,
    lemma_mod_twice, point_values, values, CurveAffine, FftGroup, PrimeField,
};
use crate::parallel::current_num_threads;
use crate::poly::inner;

verus! {

/// Window `segment` of `c` bits of `v`: `(v >> (segment * c)) mod 2^c`.
pub open spec fn digit(v: int, segment: nat, c: nat) -> int {
    (v / pow2(segment * c) as int) % (pow2(c) as int)
}

/// Eight bytes read from position `sb` of `b`, past its end as zeros.
pub open spec fn window8(b: Seq<u8>, sb: int) -> Seq<u8> {
    Seq::new(8, |t: int| if sb + t < b.len() { b[sb + t] } else { 0u8 })
}

proof fn lemma_window8(b: Seq<u8>, sb: int)
    requires
        0 <= sb <= b.len(),
    ensures
        le_value(window8(b, sb)) == (le_value(b) / pow(256, sb as nat)) % pow(256, 8),
{
    let tail = b.skip(sb);
    lemma_le_value_split(b, sb as nat);
    lemma_le_value_bound(b.take(sb));
    lemma_le_value_bound(tail);
    vstd::arithmetic::power::lemma_pow_positive(256, sb as nat);
    vstd::arithmetic::power::lemma_pow_positive(256, 8);
    let q = pow(256, sb as nat);
    assert(le_value(b) == le_value(tail) * q + le_value(b.take(sb))) by (nonlinear_arith)
        requires le_value(b) == le_value(b.take(sb)) + q * le_value(tail);
    vstd::arithmetic::div_mod::lemma_fundamental_div_mod_converse(
        le_value(b),
        q,
        le_value(tail),
        le_value(b.take(sb)),
    );
    let w = window8(b, sb);
    if tail.len() >= 8 {
        lemma_le_value_split(tail, 8);
        assert(tail.take(8) =~= w);
        lemma_le_value_bound(tail.take(8));
        lemma_le_value_bound(tail.skip(8));
        assert(le_value(tail) == le_value(tail.skip(8)) * pow(256, 8) + le_value(w)) by (nonlinear_arith)
            requires le_value(tail) == le_value(w) + pow(256, 8) * le_value(tail.skip(8));
        vstd::arithmetic::div_mod::lemma_fundamental_div_mod_converse(
            le_value(tail),
            pow(256, 8),
            le_value(tail.skip(8)),
            le_value(w),
        );
    } else {
        let z = Seq::new((8 - tail.len()) as nat, |t: int| 0u8);
        assert(tail + z =~= w);
        lemma_le_value_zeros(tail, z);
        vstd::arithmetic::power::lemma_pow_increases(256, tail.len(), 8);
        vstd::arithmetic::div_mod::lemma_small_mod(le_value(tail) as nat, pow(256, 8) as nat);
    }
}

/// `((x mod 2^64) >> r) mod 2^c` is `(x >> r) mod 2^c` when `r + c <= 64`.
proof fn lemma_shift_window(x: int, r: nat, c: nat)
    requires
        0 <= x,
        r + c <= 64,
    ensures
        ((x % pow2(64) as int) / pow2(r) as int) % (pow2(c) as int) == (x / pow2(r) as int) % (pow2(c) as int),
{
    let a = pow2(r) as int;
    let k = pow2((64 - r) as nat) as int;
    let b = pow2(c) as int;
    let l = pow2((64 - r - c) as nat) as int;
    vstd::arithmetic::power2::lemma_pow2_pos(r);
    vstd::arithmetic::power2::lemma_pow2_pos((64 - r) as nat);
    vstd::arithmetic::power2::lemma_pow2_pos(c);
    vstd::arithmetic::power2::lemma_pow2_pos((64 - r - c) as nat);
    vstd::arithmetic::power2::lemma_pow2_adds(r, (64 - r) as nat);
    vstd::arithmetic::power2::lemma_pow2_adds(c, (64 - r - c) as nat);
    vstd::arithmetic::div_mod::lemma_mod_breakdown(x, a, k);
    vstd::arithmetic::div_mod::lemma_mod_bound(x, a);
    vstd::arithmetic::div_mod::lemma_div_pos_is_pos(x, a);
    vstd::arithmetic::div_mod::lemma_mod_bound(x / a, k);
    vstd::arithmetic::div_mod::lemma_div_multiples_vanish_fancy((x / a) % k, x % a, a);
    vstd::arithmetic::div_mod::lemma_mod_mod(x / a, b, l);
}

/// The `c`-bit window `segment` of the scalar whose canonical little-endian
/// bytes are `bytes`; zero past the 32 bytes.
pub fn get_at(segment: usize, c: usize, bytes: &[u8; 32]) -> (r: usize)
    requires
        1 <= c <= 56,
        segment * c <= 1024,
        pow2(c as nat) <= usize::MAX,
    ensures
        r == digit(le_value(bytes@), segment as nat, c as nat),
{
    let skip_bits = segment * c;
    let skip_bytes = skip_bits / 8;
    let ghost v = le_value(bytes@);
    proof {
        lemma_le_value_bound(bytes@);
        vstd::arithmetic::power2::lemma_pow2_pos((segment * c) as nat);
        vstd::arithmetic::power2::lemma_pow2_pos(c as nat);
    }
    if skip_bytes >= 32 {
        proof {
            lemma_pow256(32);
            if segment * c > 256 {
                vstd::arithmetic::power2::lemma_pow2_strictly_increases(256, (segment * c) as nat);
            }
            vstd::arithmetic::div_mod::lemma_basic_div(v, pow2((segment * c) as nat) as int);
            vstd::arithmetic::div_mod::lemma_small_mod(0, pow2(c as nat));
        }
        return 0;
    }
    let mut tmp: u64 = 0;
    let mut i: usize = 8;
    let ghost w = window8(bytes@, skip_bytes as int);
    proof {
        assert(w.skip(8) =~= Seq::<u8>::empty());
        vstd::arithmetic::power::lemma_pow0(256);
    }
    while i > 0
        invariant
            i <= 8,
            skip_bytes < 32,
            w == window8(bytes@, skip_bytes as int),
            tmp == le_value(w.skip(i as int)),
            tmp < pow(256, (8 - i) as nat),
        decreases i,
    {
        i = i - 1;
        let byte: u8 = if skip_bytes + i < 32 { bytes[skip_bytes + i] } else { 0 };
        proof {
            assert(w.skip(i as int).drop_first() =~= w.skip(i + 1));
            vstd::arithmetic::power::lemma_pow_adds(256, 1, (8 - i - 1) as nat);
            vstd::arithmetic::power::lemma_pow1(256);
            vstd::arithmetic::power::lemma_pow_increases(256, (8 - i) as nat, 8);
            lemma_pow256(8);
            vstd::arithmetic::power2::lemma2_to64();
            vstd::arithmetic::power2::lemma2_to64_rest();
            assert(tmp * 256 + byte < 256 * pow(256, (8 - i - 1) as nat)) by (nonlinear_arith)
                requires tmp < pow(256, (8 - i - 1) as nat), byte < 256;
        }
        tmp = tmp * 256 + byte as u64;
    }
    let shift = skip_bits - skip_bytes * 8;
    proof {
        assert(w.skip(0) =~= w);
        lemma_window8(bytes@, skip_bytes as int);
        lemma_pow256(skip_bytes as nat);
        lemma_pow256(8);
        vstd::bits::lemma_u64_shr_is_div(tmp, shift as u64);
        vstd::bits::lemma_u64_pow2_no_overflow(c as nat);
        vstd::bits::lemma_u64_shl_is_mul(1, c as u64);
        vstd::arithmetic::power2::lemma_pow2_pos(c as nat);
        vstd::arithmetic::power2::lemma_pow2_pos((8 * skip_bytes) as nat);
        vstd::arithmetic::power2::lemma_pow2_pos(shift as nat);
        vstd::bits::lemma_u64_pow2_no_overflow(c as nat);
        lemma_shift_window(v / pow2((8 * skip_bytes) as nat) as int, shift as nat, c as nat);
        vstd::arithmetic::div_mod::lemma_div_denominator(v, pow2((8 * skip_bytes) as nat) as int, pow2(shift as nat) as int);
        vstd::arithmetic::power2::lemma_pow2_adds((8 * skip_bytes) as nat, shift as nat);
        assert(8 * skip_bytes + shift == segment * c);
        let x = v / pow2((8 * skip_bytes) as nat) as int;
        vstd::arithmetic::div_mod::lemma_div_pos_is_pos(v, pow2((8 * skip_bytes) as nat) as int);
        assert(tmp == x % (pow2(64) as int));
        assert(x / (pow2(shift as nat) as int) == v / (pow2((segment * c) as nat) as int));
    }
    let shifted = tmp >> shift as u64;
    let digit_value = shifted % (1u64 << c as u64);
    proof {
        assert(digit_value == digit(v, segment as nat, c as nat));
        vstd::arithmetic::div_mod::lemma_mod_bound(shifted as int, pow2(c as nat) as int);
    }
    digit_value as usize
}

/// `floor(e^k)` for `k <= 45`: `n <= floor(e^k)` exactly when `ln n <= k`
/// (`e^k` is irrational for `k >= 1`); `e^45` is above every `u64`.
pub open spec fn exp_floor(k: nat) -> nat {
    if k == 0 {
        1
    } else if k == 1 {
        2
    } else if k == 2 {
        7
    } else if k == 3 {
        20
    } else if k == 4 {
        54
    } else if k == 5 {
        148
    } else if k == 6 {
        403
    } else if k == 7 {
        1096
    } else if k == 8 {
        2980
    } else if k == 9 {
        8103
    } else if k == 10 {
        22026
    } else if k == 11 {
        59874
    } else if k == 12 {
        162754
    } else if k == 13 {
        442413
    } else if k == 14 {
        1202604
    } else if k == 15 {
        3269017
    } else if k == 16 {
        8886110
    } else if k == 17 {
        24154952
    } else if k == 18 {
        65659969
    } else if k == 19 {
        178482300
    } else if k == 20 {
        485165195
    } else if k == 21 {
        1318815734
    } else if k == 22 {
        3584912846
    } else if k == 23 {
        9744803446
    } else if k == 24 {
        26489122129
    } else if k == 25 {
        72004899337
    } else if k == 26 {
        195729609428
    } else if k == 27 {
        532048240601
    } else if k == 28 {
        1446257064291
    } else if k == 29 {
        3931334297144
    } else if k == 30 {
        10686474581524
    } else if k == 31 {
        29048849665247
    } else if k == 32 {
        78962960182680
    } else if k == 33 {
        214643579785916
    } else if k == 34 {
        583461742527454
    } else if k == 35 {
        1586013452313430
    } else if k == 36 {
        4311231547115195
    } else if k == 37 {
        11719142372802611
    } else if k == 38 {
        31855931757113756
    } else if k == 39 {
        86593400423993746
    } else if k == 40 {
        235385266837019985
    } else if k == 41 {
        639843493530054949
    } else if k == 42 {
        1739274941520501047
    } else if k == 43 {
        4727839468229346561
    } else if k == 44 {
        12851600114359308275
    } else {
        34934271057485095348
    }
}

/// The least `k` from `j` up to 45 with `n <= floor(e^k)`.
pub open spec fn ceil_ln_from(n: nat, j: nat) -> nat
    decreases 45 - j,
{
    if j >= 45 || n <= exp_floor(j) {
        j
    } else {
        ceil_ln_from(n, j + 1)
    }
}

/// The window width of the bucket method for `n` points: 1 below 4 points,
/// 3 below 32, and `ceil(ln n)` from there on.
pub open spec fn window_width(n: nat) -> nat {
    if n < 4 {
        1
    } else if n < 32 {
        3
    } else {
        ceil_ln_from(n, 0)
    }
}

proof fn lemma_exp_floor_increasing(j: nat)
    requires
        j < 45,
    ensures
        exp_floor(j) < exp_floor(j + 1),
{
}

proof fn lemma_exp_floor_monotone(i: nat, j: nat)
    requires
        i <= j <= 45,
    ensures
        exp_floor(i) <= exp_floor(j),
    decreases j - i,
{
    if i < j {
        lemma_exp_floor_increasing(i);
        lemma_exp_floor_monotone(i + 1, j);
    }
}

proof fn lemma_ceil_ln(n: nat, j: nat, c: nat)
    requires
        j <= c <= 45,
        c >= 1,
        exp_floor((c - 1) as nat) < n <= exp_floor(c),
    ensures
        ceil_ln_from(n, j) == c,
    decreases c - j,
{
    if j < c {
        lemma_exp_floor_monotone(j, (c - 1) as nat);
        lemma_ceil_ln(n, j + 1, c);
    }
}

/// The window width of the bucket method for `n` points: 1 below 4 points,
/// 3 below 32, and `ceil(ln n)` from there on (`n <= floor(e^k)` exactly when
/// `ln n <= k`).
pub fn window_bits(n: usize) -> (c: usize)
    ensures
        1 <= c <= 45,
        n < 4 ==> c == 1,
        4 <= n < 32 ==> c == 3,
        n >= 32 ==> exp_floor((c - 1) as nat) < n <= exp_floor(c as nat),
        c == window_width(n as nat),
        pow2(c as nat) <= if n < 32 { 8 } else { n as nat },
{
    proof {
        vstd::arithmetic::power2::lemma2_to64();
        vstd::arithmetic::power2::lemma2_to64_rest();
    }
    let w = n as u64;
    let c: usize = {
        if n < 4 {
            1
        } else if n < 32 {
            3
        } else if w <= 54 {
            4
        } else if w <= 148 {
            5
        } else if w <= 403 {
            6
        } else if w <= 1096 {
            7
        } else if w <= 2980 {
            8
        } else if w <= 8103 {
            9
        } else if w <= 22026 {
            10
        } else if w <= 59874 {
            11
        } else if w <= 162754 {
            12
        } else if w <= 442413 {
            13
        } else if w <= 1202604 {
            14
        } else if w <= 3269017 {
            15
        } else if w <= 8886110 {
            16
        } else if w <= 24154952 {
            17
        } else if w <= 65659969 {
            18
        } else if w <= 178482300 {
            19
        } else if w <= 485165195 {
            20
        } else if w <= 1318815734 {
            21
        } else if w <= 3584912846 {
            22
        } else if w <= 9744803446 {
            23
        } else if w <= 26489122129 {
            24
        } else if w <= 72004899337 {
            25
        } else if w <= 195729609428 {
            26
        } else if w <= 532048240601 {
            27
        } else if w <= 1446257064291 {
            28
        } else if w <= 3931334297144 {
            29
        } else if w <= 10686474581524 {
            30
        } else if w <= 29048849665247 {
            31
        } else if w <= 78962960182680 {
            32
        } else if w <= 214643579785916 {
            33
        } else if w <= 583461742527454 {
            34
        } else if w <= 1586013452313430 {
            35
        } else if w <= 4311231547115195 {
            36
        } else if w <= 11719142372802611 {
            37
        } else if w <= 31855931757113756 {
            38
        } else if w <= 86593400423993746 {
            39
        } else if w <= 235385266837019985 {
            40
        } else if w <= 639843493530054949 {
            41
        } else if w <= 1739274941520501047 {
            42
        } else if w <= 4727839468229346561 {
            43
        } else if w <= 12851600114359308275 {
            44
        } else {
            45
        }
    };
    proof {
        if n >= 32 {
            lemma_ceil_ln(n as nat, 0, c as nat);
        }
    }
    c
}

/// Points gathered for one digit value of one window: none yet, one affine
/// point, or a projective sum.
#[derive(Clone, Copy)]
pub enum Bucket<C: CurveAffine> {
    Empty,
    Affine(C),
    Projective(C::Curve),
}

impl<C: CurveAffine> Bucket<C> {
    /// The integer of the sum the bucket holds.
    pub open spec fn value(self) -> int {
        match self {
            Bucket::Empty => 0,
            Bucket::Affine(a) => a.point_value(),
            Bucket::Projective(p) => p.group_value(),
        }
    }

    pub proof fn lemma_value_bound(self)
        ensures
            0 <= self.value() < C::Scalar::modulus(),
    {
        match self {
            Bucket::Empty => {
                C::Scalar::lemma_modulus();
            },
            Bucket::Affine(a) => {
                C::lemma_point_value_bound(a);
            },
            Bucket::Projective(p) => {
                <C::Curve as FftGroup<C::Scalar>>::lemma_group_value_bound(p);
            },
        }
    }

    /// Adds an affine point to the bucket.
    pub fn add_assign(&mut self, other: &C)
        ensures
            final(self).value() == (old(self).value() + other.point_value()) % C::Scalar::modulus(),
    {
        proof {
            C::lemma_point_value_bound(*other);
            vstd::arithmetic::div_mod::lemma_small_mod(other.point_value() as nat, C::Scalar::modulus() as nat);
        }
        *self = match *self {
            Bucket::Empty => Bucket::Affine(*other),
            Bucket::Affine(a) => Bucket::Projective(a.add_affine(other)),
            Bucket::Projective(a) => Bucket::Projective(other.add_to_curve(&a)),
        };
    }

    /// The bucket's sum plus a projective point.
    pub fn add(self, other: C::Curve) -> (r: C::Curve)
        ensures
            r.group_value() == (other.group_value() + self.value()) % C::Scalar::modulus(),
    {
        match self {
            Bucket::Empty => {
                proof {
                    <C::Curve as FftGroup<C::Scalar>>::lemma_group_value_bound(other);
                    vstd::arithmetic::div_mod::lemma_small_mod(other.group_value() as nat, C::Scalar::modulus() as nat);
                }
                other
            },
            Bucket::Affine(a) => a.add_to_curve(&other),
            Bucket::Projective(a) => other.add_elem(&a),
        }
    }
}

/// `sum bk[j..]`.
pub open spec fn suffix_sum(bk: Seq<int>, j: int) -> int
    decreases bk.len() - j,
{
    if j < 0 || j >= bk.len() {
        0
    } else {
        bk[j] + suffix_sum(bk, j + 1)
    }
}

/// `sum (k - j + 1) * bk[k]` over `k >= j`: what a running sum of the
/// buckets from the top down to `j` adds up to.
pub open spec fn running_total(bk: Seq<int>, j: int) -> int
    decreases bk.len() - j,
{
    if j < 0 || j >= bk.len() {
        0
    } else {
        bk[j] + suffix_sum(bk, j + 1) + running_total(bk, j + 1)
    }
}

/// Adding `d` to bucket `i` adds `(i - j + 1) d` to the running total from `j`.
proof fn lemma_running_total_update(bk: Seq<int>, i: int, d: int, j: int)
    requires
        0 <= i < bk.len(),
        0 <= j <= bk.len(),
    ensures
        suffix_sum(bk.update(i, bk[i] + d), j) == suffix_sum(bk, j) + if j <= i { d } else { 0 },
        running_total(bk.update(i, bk[i] + d), j) == running_total(bk, j) + if j <= i { (i - j + 1) * d } else { 0 },
    decreases bk.len() - j,
{
    if j < bk.len() {
        lemma_running_total_update(bk, i, d, j + 1);
        if j == i {
            assert((i - j + 1) * d == d) by (nonlinear_arith)
                requires i == j;
        } else if j < i {
            assert((i - (j + 1) + 1) * d + d == (i - j + 1) * d) by (nonlinear_arith);
        }
    }
}

/// `v[i] >> k` for every `i`.
pub open spec fn shifted(v: Seq<int>, k: nat) -> Seq<int> {
    Seq::new(v.len(), |i: int| v[i] / pow2(k) as int)
}

/// Window `segment` of `c` bits of every `v[i]`.
pub open spec fn digits(v: Seq<int>, segment: nat, c: nat) -> Seq<int> {
    Seq::new(v.len(), |i: int| digit(v[i], segment, c))
}

/// `inner(k a + d, b) = k inner(a, b) + inner(d, b)`.
proof fn lemma_inner_combine(a: Seq<int>, d: Seq<int>, e: Seq<int>, b: Seq<int>, k: int)
    requires
        a.len() == d.len() == e.len() == b.len(),
        forall|i: int| 0 <= i < e.len() ==> #[trigger] e[i] == k * a[i] + d[i],
    ensures
        inner(e, b) == k * inner(a, b) + inner(d, b),
    decreases a.len(),
{
    if a.len() > 0 {
        lemma_inner_combine(a.drop_last(), d.drop_last(), e.drop_last(), b.drop_last(), k);
        let n = a.len() - 1;
        let ia = inner(a.drop_last(), b.drop_last());
        let id = inner(d.drop_last(), b.drop_last());
        assert(k * ia + id + (k * a[n] + d[n]) * b[n] == k * (ia + a[n] * b[n]) + (id + d[n] * b[n]))
            by (nonlinear_arith);
    }
}

/// One window step of the bucket method: `v >> (s c)` is `2^c (v >> ((s+1) c))`
/// plus window `s`.
proof fn lemma_window_step(v: Seq<int>, b: Seq<int>, s: nat, c: nat)
    requires
        v.len() == b.len(),
        forall|i: int| 0 <= i < v.len() ==> 0 <= #[trigger] v[i],
    ensures
        inner(shifted(v, s * c), b) == pow2(c) * inner(shifted(v, (s + 1) * c), b) + inner(digits(v, s, c), b),
{
    let p = pow2(c) as int;
    let q = pow2(s * c) as int;
    vstd::arithmetic::power2::lemma_pow2_pos(c);
    vstd::arithmetic::power2::lemma_pow2_pos(s * c);
    vstd::arithmetic::power2::lemma_pow2_adds(s * c, c);
    assert((s + 1) * c == s * c + c) by (nonlinear_arith);
    assert forall|i: int| 0 <= i < v.len() implies #[trigger] shifted(v, s * c)[i] == p * shifted(v, (s + 1) * c)[i]
        + digits(v, s, c)[i] by {
        let x = v[i] / q;
        vstd::arithmetic::div_mod::lemma_fundamental_div_mod(x, p);
        vstd::arithmetic::div_mod::lemma_div_denominator(v[i], q, p);
        assert(q * p == pow2((s + 1) * c));
    }
    lemma_inner_combine(shifted(v, (s + 1) * c), digits(v, s, c), shifted(v, s * c), b, p);
}

/// An inner product with an all-zero side is zero.
proof fn lemma_inner_zero(a: Seq<int>, b: Seq<int>)
    requires
        a.len() == b.len(),
        forall|i: int| 0 <= i < a.len() ==> #[trigger] a[i] == 0,
    ensures
        inner(a, b) == 0,
    decreases a.len(),
{
    if a.len() > 0 {
        lemma_inner_zero(a.drop_last(), b.drop_last());
    }
}

/// Doubles `acc` `c` times.
fn double_times<S: PrimeField, G: FftGroup<S>>(acc: &mut G, c: usize)
    ensures
        final(acc).group_value() == (old(acc).group_value() * pow2(c as nat)) % S::modulus(),
{
    let mut t: usize = 0;
    let ghost a0 = acc.group_value();
    proof {
        vstd::arithmetic::power2::lemma2_to64();
        G::lemma_group_value_bound(*acc);
        S::lemma_modulus();
        vstd::arithmetic::div_mod::lemma_small_mod(a0 as nat, S::modulus() as nat);
    }
    while t < c
        invariant
            t <= c,
            acc.group_value() == (a0 * pow2(t as nat)) % S::modulus(),
            S::modulus() > 1,
        decreases c - t,
    {
        *acc = acc.double();
        proof {
            let m = S::modulus();
            vstd::arithmetic::power2::lemma_pow2_unfold((t + 1) as nat);
            lemma_add_mul_mod(2, a0 * pow2(t as nat), m);
            lemma_mod_twice(2, m);
            lemma_mod_twice(a0 * pow2(t as nat), m);
            vstd::arithmetic::div_mod::lemma_mul_mod_noop_right(2, a0 * pow2(t as nat), m);
            assert(2 * (a0 * pow2(t as nat)) == a0 * pow2((t + 1) as nat)) by (nonlinear_arith)
                requires pow2((t + 1) as nat) == 2 * pow2(t as nat);
        }
        t = t + 1;
    }
}

/// Sorts the points into buckets by their window `segment`: bucket `j` gets
/// every point whose digit is `j + 1`; digit zero adds nothing.
fn fill_buckets<C: CurveAffine>(reprs: &Vec<[u8; 32]>, bases: &[C], segment: usize, c: usize) -> (r: (
    Vec<Bucket<C>>,
    Ghost<Seq<int>>,
))
    requires
        reprs@.len() == bases@.len(),
        1 <= c <= 45,
        segment * c <= 1024,
        pow2(c as nat) <= usize::MAX,
    ensures
        r.0@.len() == pow2(c as nat) - 1,
        r.1@.len() == r.0@.len(),
        forall|j: int| 0 <= j < r.0@.len() ==> #[trigger] r.0@[j].value() == r.1@[j] % C::Scalar::modulus(),
        running_total(r.1@, 0) == inner(
            digits(Seq::new(reprs@.len(), |i: int| le_value(reprs@[i]@)), segment as nat, c as nat),
            point_values(bases@),
        ),
{
    let ghost vs = Seq::new(reprs@.len(), |i: int| le_value(reprs@[i]@));
    let ghost ds = digits(vs, segment as nat, c as nat);
    let ghost bs = point_values(bases@);
    proof {
        vstd::arithmetic::power2::lemma_pow2_pos(c as nat);
        C::Scalar::lemma_modulus();
        vstd::arithmetic::power2::lemma2_to64();
    }
    let mut size: usize = 1;
    let mut t: usize = 0;
    while t < c
        invariant
            t <= c,
            size == pow2(t as nat),
            pow2(c as nat) <= usize::MAX,
        decreases c - t,
    {
        proof {
            vstd::arithmetic::power2::lemma_pow2_unfold((t + 1) as nat);
            if t + 1 < c {
                vstd::arithmetic::power2::lemma_pow2_strictly_increases((t + 1) as nat, c as nat);
            }
        }
        size = size * 2;
        t = t + 1;
    }
    let nb = size - 1;
    let mut buckets: Vec<Bucket<C>> = Vec::new();
    let ghost mut bk: Seq<int> = Seq::empty();
    while buckets.len() < nb
        invariant
            buckets@.len() <= nb,
            bk.len() == buckets@.len(),
            C::Scalar::modulus() > 1,
            forall|j: int| 0 <= j < buckets@.len() ==> #[trigger] buckets@[j].value() == bk[j] % C::Scalar::modulus(),
            forall|j: int| 0 <= j < bk.len() ==> #[trigger] bk[j] == 0,
        decreases nb - buckets@.len(),
    {
        buckets.push(Bucket::Empty);
        proof {
            bk = bk.push(0);
            vstd::arithmetic::div_mod::lemma_small_mod(0, C::Scalar::modulus() as nat);
        }
    }
    proof {
        assert forall|j: int| 0 <= j <= bk.len() implies running_total(bk, j) == 0 && suffix_sum(bk, j) == 0 by {
            lemma_zero_totals(bk, j);
        }
        assert(ds.take(0) =~= Seq::<int>::empty());
        assert(bs.take(0) =~= Seq::<int>::empty());
    }
    let mut i: usize = 0;
    while i < bases.len()
        invariant
            reprs@.len() == bases@.len(),
            i <= bases@.len(),
            1 <= c <= 45,
            segment * c <= 1024,
            pow2(c as nat) <= usize::MAX,
            nb == pow2(c as nat) - 1,
            buckets@.len() == nb,
            bk.len() == nb,
            C::Scalar::modulus() > 1,
            vs == Seq::new(reprs@.len(), |i: int| le_value(reprs@[i]@)),
            ds == digits(vs, segment as nat, c as nat),
            bs == point_values(bases@),
            forall|j: int| 0 <= j < buckets@.len() ==> #[trigger] buckets@[j].value() == bk[j] % C::Scalar::modulus(),
            running_total(bk, 0) == inner(ds.take(i as int), bs.take(i as int)),
        decreases bases@.len() - i,
    {
        let d = get_at(segment, c, &reprs[i]);
        proof {
            vstd::arithmetic::div_mod::lemma_mod_bound(vs[i as int] / pow2((segment * c) as nat) as int, pow2(c as nat) as int);
            assert(ds[i as int] == d);
            assert(ds.take(i + 1).drop_last() =~= ds.take(i as int));
            assert(bs.take(i + 1).drop_last() =~= bs.take(i as int));
        }
        let ghost prev = buckets@;
        if d != 0 {
            let mut b = buckets[d - 1];
            b.add_assign(&bases[i]);
            buckets.set(d - 1, b);
            proof {
                let m = C::Scalar::modulus();
                let old_bk = bk;
                let bi = bases@[i as int].point_value();
                lemma_running_total_update(old_bk, d - 1, bi, 0);
                bk = old_bk.update(d - 1, old_bk[d - 1] + bi);
                lemma_add_mul_mod(old_bk[d - 1], bi, m);
                lemma_mod_twice(old_bk[d - 1], m);
                C::lemma_point_value_bound(bases@[i as int]);
                vstd::arithmetic::div_mod::lemma_small_mod(bi as nat, m as nat);
                assert((d - 1 - 0 + 1) * bi == d * bi);
                assert forall|j: int| 0 <= j < buckets@.len() implies #[trigger] buckets@[j].value() == bk[j] % m by {
                    if j != d - 1 {
                        assert(buckets@[j] == prev[j]);
                    }
                }
            }
        }
        proof {
            assert(bs[i as int] == bases@[i as int].point_value());
            assert(inner(ds.take(i + 1), bs.take(i + 1)) == inner(ds.take(i as int), bs.take(i as int)) + ds[i as int] * bs[i as int]);
            if d == 0 {
                let x = ds[i as int];
                let y = bs[i as int];
                assert(x == 0);
                assert(x * y == 0) by (nonlinear_arith)
                    requires x == 0;
            }
        }
        i = i + 1;
    }
    proof {
        assert(ds.take(i as int) =~= ds);
        assert(bs.take(i as int) =~= bs);
    }
    (buckets, Ghost(bk))
}

proof fn lemma_zero_totals(bk: Seq<int>, j: int)
    requires
        0 <= j <= bk.len(),
        forall|k: int| 0 <= k < bk.len() ==> #[trigger] bk[k] == 0,
    ensures
        running_total(bk, j) == 0,
        suffix_sum(bk, j) == 0,
    decreases bk.len() - j,
{
    if j < bk.len() {
        lemma_zero_totals(bk, j + 1);
    }
}

/// Summation by parts: folds the buckets from the top with a running sum,
/// adding the running sum to `acc` at each step, which weights bucket `j` by
/// `j + 1`.
fn fold_buckets<C: CurveAffine>(buckets: &Vec<Bucket<C>>, bk: Ghost<Seq<int>>, acc: &mut C::Curve)
    requires
        bk@.len() == buckets@.len(),
        forall|j: int| 0 <= j < buckets@.len() ==> #[trigger] buckets@[j].value() == bk@[j] % C::Scalar::modulus(),
    ensures
        final(acc).group_value() == (old(acc).group_value() + running_total(bk@, 0)) % C::Scalar::modulus(),
{
    let ghost m = C::Scalar::modulus();
    let ghost a0 = acc.group_value();
    let mut running_sum = <C::Curve as FftGroup<C::Scalar>>::identity();
    let mut j = buckets.len();
    proof {
        C::Scalar::lemma_modulus();
        <C::Curve as FftGroup<C::Scalar>>::lemma_group_value_bound(*acc);
        vstd::arithmetic::div_mod::lemma_small_mod(a0 as nat, m as nat);
        vstd::arithmetic::div_mod::lemma_small_mod(0, m as nat);
    }
    while j > 0
        invariant
            j <= buckets@.len(),
            bk@.len() == buckets@.len(),
            m == C::Scalar::modulus(),
            m > 1,
            forall|k: int| 0 <= k < buckets@.len() ==> #[trigger] buckets@[k].value() == bk@[k] % m,
            running_sum.group_value() == suffix_sum(bk@, j as int) % m,
            acc.group_value() == (a0 + running_total(bk@, j as int)) % m,
        decreases j,
    {
        j = j - 1;
        running_sum = buckets[j].add(running_sum);
        *acc = acc.add_elem(&running_sum);
        proof {
            let b = bk@[j as int];
            let sfx = suffix_sum(bk@, j + 1);
            lemma_add_mul_mod(sfx, b, m);
            lemma_mod_twice(sfx, m);
            lemma_mod_twice(b, m);
            let rt = running_total(bk@, j + 1);
            lemma_add_mul_mod(a0 + rt, sfx + b, m);
            lemma_mod_twice(a0 + rt, m);
            lemma_mod_twice(sfx + b, m);
        }
    }
    proof {
        lemma_mod_twice(a0 + running_total(bk@, 0), m);
    }
}

/// `sum coeffs[i] * bases[i]` over the integers of the scalars and points.
pub open spec fn msm_value<C: CurveAffine>(coeffs: Seq<C::Scalar>, bases: Seq<C>) -> int {
    inner(values(coeffs), point_values(bases))
}

/// The windowed bucket method: for each window of `c` bits of the scalars,
/// from the most significant down, `acc` is doubled `c` times and then gets
/// `sum d * (points whose digit is d)` through the buckets. Starting from the
/// identity, `acc` ends as `sum coeffs[i] * bases[i]`; from another point it
/// ends as that point doubled `c * (256 / c + 1)` times plus the sum, `c`
/// being the window width.
pub fn multiexp_serial<C: CurveAffine>(coeffs: &[C::Scalar], bases: &[C], acc: &mut C::Curve)
    requires
        coeffs@.len() == bases@.len(),
    ensures
        old(acc).group_value() == 0 ==> final(acc).group_value() == msm_value(coeffs@, bases@)
            % C::Scalar::modulus(),
        final(acc).group_value() == (old(acc).group_value() * pow2(
            window_width(bases@.len()) * (256nat / window_width(bases@.len()) + 1),
        ) + msm_value(coeffs@, bases@)) % C::Scalar::modulus(),
{
    let ghost m = C::Scalar::modulus();
    let ghost a0 = acc.group_value();
    let mut reprs: Vec<[u8; 32]> = Vec::new();
    let mut i: usize = 0;
    while i < coeffs.len()
        invariant
            i <= coeffs@.len(),
            reprs@.len() == i,
            forall|k: int| 0 <= k < i ==> #[trigger] le_value(reprs@[k]@) == coeffs@[k].value(),
        decreases coeffs@.len() - i,
    {
        reprs.push(coeffs[i].to_repr());
        i = i + 1;
    }
    let ghost vs = Seq::new(reprs@.len(), |i: int| le_value(reprs@[i]@));
    let ghost bs = point_values(bases@);
    proof {
        assert(vs =~= values(coeffs@));
        C::Scalar::lemma_modulus();
    }
    let n = bases.len();
    let c = window_bits(n);
    let segments = 256 / c + 1;
    let mut current_segment = segments;
    proof {
        vstd::arithmetic::power2::lemma2_to64();
        assert(segments * c > 256) by (nonlinear_arith)
            requires segments == 256usize / c + 1, c >= 1;
        assert(segments * c <= 256 + c) by (nonlinear_arith)
            requires segments == 256usize / c + 1, c >= 1;
        // Above the top window every scalar shifts to zero.
        lemma_pow256(32);
        assert forall|k: int| 0 <= k < vs.len() implies #[trigger] shifted(vs, (segments * c) as nat)[k] == 0 by {
            lemma_le_value_bound(reprs@[k]@);
            vstd::arithmetic::power2::lemma_pow2_strictly_increases(256, (segments * c) as nat);
            vstd::arithmetic::div_mod::lemma_basic_div(vs[k], pow2((segments * c) as nat) as int);
        }
        lemma_inner_zero(shifted(vs, (segments * c) as nat), bs);
        <C::Curve as FftGroup<C::Scalar>>::lemma_group_value_bound(*acc);
        vstd::arithmetic::div_mod::lemma_small_mod(a0 as nat, m as nat);
        assert(c * (segments - current_segment) == 0) by (nonlinear_arith)
            requires current_segment == segments;
        assert(a0 * pow2(0) == a0);
        assert forall|k: int| 0 <= k < vs.len() implies 0 <= #[trigger] vs[k] by {
            lemma_le_value_bound(reprs@[k]@);
        }
    }
    while current_segment > 0
        invariant
            current_segment <= segments,
            segments == 256usize / c + 1,
            1 <= c <= 45,
            segments * c <= 256 + c,
            n == bases@.len(),
            pow2(c as nat) <= if n < 32 { 8 } else { n as nat },
            reprs@.len() == bases@.len() == coeffs@.len(),
            vs == Seq::new(reprs@.len(), |i: int| le_value(reprs@[i]@)),
            bs == point_values(bases@),
            forall|k: int| 0 <= k < vs.len() ==> 0 <= #[trigger] vs[k],
            m == C::Scalar::modulus(),
            m > 1,
            acc.group_value() == (a0 * pow2((c * (segments - current_segment)) as nat) + inner(
                shifted(vs, (current_segment * c) as nat),
                bs,
            )) % m,
        decreases current_segment,
    {
        current_segment = current_segment - 1;
        proof {
            assert(current_segment * c <= 1024) by (nonlinear_arith)
                requires current_segment < segments, segments * c <= 256 + c, c <= 45;
        }
        let ghost before = acc.group_value();
        double_times::<C::Scalar, C::Curve>(acc, c);
        let (buckets, bk) = fill_buckets(&reprs, bases, current_segment, c);
        let ghost doubled = acc.group_value();
        fold_buckets(&buckets, bk, acc);
        proof {
            let s = current_segment as nat;
            let e = (c * (segments - current_segment - 1)) as nat;
            let p = pow2(c as nat) as int;
            let hi = inner(shifted(vs, (s + 1) * (c as nat)), bs);
            let dg = inner(digits(vs, s, c as nat), bs);
            lemma_window_step(vs, bs, s, c as nat);
            assert(((current_segment + 1) * c) as nat == (s + 1) * (c as nat));
            assert((current_segment * c) as nat == s * (c as nat));
            let x = a0 * pow2(e) + hi;
            // before == x % m; doubled == (before * p) % m; final == (doubled + dg) % m
            vstd::arithmetic::div_mod::lemma_mul_mod_noop_left(x, p, m);
            lemma_add_mul_mod(x * p, dg, m);
            vstd::arithmetic::div_mod::lemma_add_mod_noop_right((x * p) % m, dg, m);
            lemma_mod_twice(dg, m);
            lemma_mod_twice(x * p, m);
            vstd::arithmetic::power2::lemma_pow2_adds(e, c as nat);
            assert(e + c == (c * (segments - current_segment)) as nat) by (nonlinear_arith)
                requires e == c * (segments - current_segment - 1), current_segment < segments;
            assert(x * p + dg == a0 * pow2((c * (segments - current_segment)) as nat) + (p * hi + dg))
                by (nonlinear_arith)
                requires x == a0 * pow2(e) + hi, pow2((c * (segments - current_segment)) as nat) == pow2(e) * p;
            lemma_add_mul_mod(a0 * pow2((c * (segments - current_segment)) as nat), p * hi + dg, m);
        }
    }
    proof {
        let total = (c * segments) as nat;
        assert(shifted(vs, 0) =~= vs) by {
            vstd::arithmetic::power2::lemma2_to64();
        }
        assert((current_segment * c) as nat == 0);
        assert(msm_value(coeffs@, bases@) == inner(vs, bs));
        if a0 == 0 {
            assert(a0 * pow2(total) == 0);
        }
    }
}

/// An inner product splits at any point.
pub proof fn lemma_inner_split(a: Seq<int>, b: Seq<int>, k: int)
    requires
        a.len() == b.len(),
        0 <= k <= a.len(),
    ensures
        inner(a, b) == inner(a.take(k), b.take(k)) + inner(a.skip(k), b.skip(k)),
    decreases a.len() - k,
{
    if k == a.len() {
        assert(a.take(k) =~= a);
        assert(b.take(k) =~= b);
        assert(a.skip(k) =~= Seq::<int>::empty());
    } else {
        lemma_inner_split(a.drop_last(), b.drop_last(), k);
        assert(a.drop_last().take(k) =~= a.take(k));
        assert(b.drop_last().take(k) =~= b.take(k));
        assert(a.skip(k).drop_last() =~= a.drop_last().skip(k));
        assert(b.skip(k).drop_last() =~= b.drop_last().skip(k));
    }
}

/// Multi-scalar multiplication, cut into one chunk per worker when there are
/// more points than workers: each chunk runs the bucket method from the
/// identity, and the partial sums are added up.
pub fn best_multiexp1<C: CurveAffine>(coeffs: &[C::Scalar], bases: &[C]) -> (r: C::Curve)
    requires
        coeffs@.len() == bases@.len(),
    ensures
        r.group_value() == msm_value(coeffs@, bases@) % C::Scalar::modulus(),
{
    let ghost m = C::Scalar::modulus();
    let ghost vs = values(coeffs@);
    let ghost bs = point_values(bases@);
    let n = coeffs.len();
    let num_threads = current_num_threads();
    proof {
        C::Scalar::lemma_modulus();
    }
    if n > num_threads {
        let chunk = n / num_threads;
        proof {
            vstd::arithmetic::div_mod::lemma_div_non_zero(n as int, num_threads as int);
        }
        let mut results: Vec<C::Curve> = Vec::new();
        let mut start: usize = 0;
        let ghost mut parts: Seq<int> = Seq::empty();
        proof {
            assert(vs.take(0) =~= Seq::<int>::empty());
            assert(bs.take(0) =~= Seq::<int>::empty());
        }
        while start < n
            invariant
                n == coeffs@.len() == bases@.len(),
                chunk >= 1,
                start <= n,
                m == C::Scalar::modulus(),
                m > 1,
                vs == values(coeffs@),
                bs == point_values(bases@),
                results@.len() == parts.len(),
                forall|j: int| 0 <= j < results@.len() ==> #[trigger] results@[j].group_value() == parts[j] % m,
                crate::poly::sum(parts) == inner(vs.take(start as int), bs.take(start as int)),
            decreases n - start,
        {
            let end = if n - start < chunk { n } else { start + chunk };
            let mut acc = <C::Curve as FftGroup<C::Scalar>>::identity();
            multiexp_serial(&coeffs[start..end], &bases[start..end], &mut acc);
            let ghost prev = results@;
            results.push(acc);
            proof {
                let cs = coeffs@.subrange(start as int, end as int);
                let bs2 = bases@.subrange(start as int, end as int);
                assert(values(cs) =~= vs.take(end as int).skip(start as int));
                assert(point_values(bs2) =~= bs.take(end as int).skip(start as int));
                lemma_inner_split(vs.take(end as int), bs.take(end as int), start as int);
                assert(vs.take(end as int).take(start as int) =~= vs.take(start as int));
                assert(bs.take(end as int).take(start as int) =~= bs.take(start as int));
                let part = msm_value(cs, bs2);
                let old_parts = parts;
                parts = parts.push(part);
                assert(parts.drop_last() =~= old_parts);
                assert forall|j: int| 0 <= j < results@.len() implies #[trigger] results@[j].group_value() == parts[j] % m by {
                    if j < old_parts.len() {
                        assert(results@[j] == prev[j]);
                    }
                }
            }
            start = end;
        }
        let mut total = <C::Curve as FftGroup<C::Scalar>>::identity();
        let mut k: usize = 0;
        proof {
            vstd::arithmetic::div_mod::lemma_small_mod(0, m as nat);
            assert(parts.take(0) =~= Seq::<int>::empty());
            assert(vs.take(n as int) =~= vs);
            assert(bs.take(n as int) =~= bs);
        }
        while k < results.len()
            invariant
                k <= results@.len() == parts.len(),
                m == C::Scalar::modulus(),
                m > 1,
                forall|j: int| 0 <= j < results@.len() ==> #[trigger] results@[j].group_value() == parts[j] % m,
                total.group_value() == crate::poly::sum(parts.take(k as int)) % m,
            decreases results@.len() - k,
        {
            total = total.add_elem(&results[k]);
            proof {
                assert(parts.take(k + 1).drop_last() =~= parts.take(k as int));
                lemma_add_mul_mod(crate::poly::sum(parts.take(k as int)), parts[k as int], m);
                lemma_mod_twice(crate::poly::sum(parts.take(k as int)), m);
                lemma_mod_twice(parts[k as int], m);
            }
            k = k + 1;
        }
        proof {
            assert(parts.take(k as int) =~= parts);
        }
        total
    } else {
        let mut acc = <C::Curve as FftGroup<C::Scalar>>::identity();
        multiexp_serial(coeffs, bases, &mut acc);
        acc
    }
}

/// Multi-scalar multiplication `sum coeffs[i] * bases[i]`, on the processor:
/// the chunked bucket method.
pub fn best_multiexp<C: CurveAffine>(coeffs: &[C::Scalar], bases: &[C]) -> (r: C::Curve)
    requires
        coeffs@.len() == bases@.len(),
    ensures
        r.group_value() == msm_value(coeffs@, bases@) % C::Scalar::modulus(),
{
    best_multiexp1(coeffs, bases)
}

/// Double-and-add with the doublings shared across points: for each bit of
/// the scalars, from the most significant, `acc` is doubled and every point
/// whose scalar has that bit set is added.
pub fn small_multiexp<C: CurveAffine>(coeffs: &[C::Scalar], bases: &[C]) -> (r: C::Curve)
    requires
        coeffs@.len() == bases@.len(),
    ensures
        r.group_value() == msm_value(coeffs@, bases@) % C::Scalar::modulus(),
{
    let ghost m = C::Scalar::modulus();
    let mut reprs: Vec<[u8; 32]> = Vec::new();
    let mut i: usize = 0;
    while i < coeffs.len()
        invariant
            i <= coeffs@.len(),
            reprs@.len() == i,
            forall|k: int| 0 <= k < i ==> #[trigger] le_value(reprs@[k]@) == coeffs@[k].value(),
        decreases coeffs@.len() - i,
    {
        reprs.push(coeffs[i].to_repr());
        i = i + 1;
    }
    let ghost vs = values(coeffs@);
    let ghost bs = point_values(bases@);
    let mut acc = <C::Curve as FftGroup<C::Scalar>>::identity();
    let mut bit: usize = 256;
    proof {
        C::Scalar::lemma_modulus();
        vstd::arithmetic::power2::lemma2_to64();
        lemma_pow256(32);
        assert forall|k: int| 0 <= k < vs.len() implies #[trigger] shifted(vs, 256)[k] == 0 by {
            lemma_le_value_bound(reprs@[k]@);
            vstd::arithmetic::div_mod::lemma_basic_div(vs[k], pow2(256) as int);
        }
        lemma_inner_zero(shifted(vs, 256), bs);
        vstd::arithmetic::div_mod::lemma_small_mod(0, m as nat);
    }
    while bit > 0
        invariant
            bit <= 256,
            reprs@.len() == bases@.len() == coeffs@.len(),
            forall|k: int| 0 <= k < reprs@.len() ==> #[trigger] le_value(reprs@[k]@) == coeffs@[k].value(),
            vs == values(coeffs@),
            bs == point_values(bases@),
            m == C::Scalar::modulus(),
            m > 1,
            acc.group_value() == inner(shifted(vs, bit as nat), bs) % m,
        decreases bit,
    {
        bit = bit - 1;
        let ghost hi = inner(shifted(vs, (bit + 1) as nat), bs);
        acc = acc.double();
        let mut j: usize = 0;
        let ghost ds = digits(vs, bit as nat, 1);
        proof {
            assert(ds.take(0) =~= Seq::<int>::empty());
            assert(bs.take(0) =~= Seq::<int>::empty());
            lemma_add_mul_mod(2, hi, m);
            lemma_mod_twice(2, m);
            vstd::arithmetic::div_mod::lemma_mul_mod_noop_right(2, hi, m);
        }
        while j < bases.len()
            invariant
                j <= bases@.len(),
                bit < 256,
                reprs@.len() == bases@.len() == coeffs@.len(),
                forall|k: int| 0 <= k < reprs@.len() ==> #[trigger] le_value(reprs@[k]@) == coeffs@[k].value(),
                vs == values(coeffs@),
                bs == point_values(bases@),
                ds == digits(vs, bit as nat, 1),
                m == C::Scalar::modulus(),
                m > 1,
                acc.group_value() == (2 * hi + inner(ds.take(j as int), bs.take(j as int))) % m,
            decreases bases@.len() - j,
        {
            proof {
                vstd::arithmetic::power2::lemma2_to64();
            }
            let d = get_at(bit, 1, &reprs[j]);
            proof {
                assert(ds[j as int] == d);
                vstd::arithmetic::div_mod::lemma_mod_bound(vs[j as int] / pow2(bit as nat) as int, 2);
                assert(ds.take(j + 1).drop_last() =~= ds.take(j as int));
                assert(bs.take(j + 1).drop_last() =~= bs.take(j as int));
                assert(bs[j as int] == bases@[j as int].point_value());
                assert(inner(ds.take(j + 1), bs.take(j + 1)) == inner(ds.take(j as int), bs.take(j as int))
                    + ds[j as int] * bs[j as int]);
            }
            let ghost before = acc.group_value();
            if d == 1 {
                acc = bases[j].add_to_curve(&acc);
                proof {
                    let t = 2 * hi + inner(ds.take(j as int), bs.take(j as int));
                    let x = ds[j as int];
                    let y = bs[j as int];
                    assert(x * y == y) by (nonlinear_arith)
                        requires x == 1;
                    lemma_add_mul_mod(t, bs[j as int], m);
                    lemma_mod_twice(t, m);
                    C::lemma_point_value_bound(bases@[j as int]);
                    vstd::arithmetic::div_mod::lemma_small_mod(bs[j as int] as nat, m as nat);
                }
            } else {
                proof {
                    let x = ds[j as int];
                    let y = bs[j as int];
                    assert(x * y == 0) by (nonlinear_arith)
                        requires x == 0;
                }
            }
            j = j + 1;
        }
        proof {
            assert(ds.take(j as int) =~= ds);
            assert(bs.take(j as int) =~= bs);
            assert forall|k: int| 0 <= k < vs.len() implies 0 <= #[trigger] vs[k] by {
                lemma_le_value_bound(reprs@[k]@);
            }
            lemma_window_step(vs, bs, bit as nat, 1);
            vstd::arithmetic::power2::lemma2_to64();
            assert(bit as nat * 1 == bit as nat);
            assert((bit as nat + 1) * 1 == (bit + 1) as nat);
        }
    }
    proof {
        assert(shifted(vs, 0) =~= vs) by {
            vstd::arithmetic::power2::lemma2_to64();
        }
    }
    acc
}

/// Cutting the input of a multi-scalar multiplication at any point and
/// adding the two partial sums gives the whole sum, so the chunked and the
/// single-pass computations agree.
pub proof fn msm_split<C: CurveAffine>(coeffs: Seq<C::Scalar>, bases: Seq<C>, k: int)
    requires
        coeffs.len() == bases.len(),
        0 <= k <= coeffs.len(),
    ensures
        msm_value(coeffs, bases) == msm_value(coeffs.take(k), bases.take(k)) + msm_value(
            coeffs.skip(k),
            bases.skip(k),
        ),
{
    lemma_inner_split(values(coeffs), point_values(bases), k);
    assert(values(coeffs.take(k)) =~= values(coeffs).take(k));
    assert(values(coeffs.skip(k)) =~= values(coeffs).skip(k));
    assert(point_values(bases.take(k)) =~= point_values(bases).take(k));
    assert(point_values(bases.skip(k)) =~= point_values(bases).skip(k));
}

/// Where a multi-scalar multiplication runs.
#[derive(Clone, Copy, Debug, PartialEq, Eq, Structural)]
pub enum MsmBackend {
    Processor,
    Accelerator,
}

/// The offload setting of multi-scalar multiplication: inputs of more than
/// `offload_above` points go to the accelerator; with `None` every input
/// stays on the processor.
#[derive(Clone, Copy, Debug)]
pub struct MsmPolicy {
    pub offload_above: Option<usize>,
}

/// The backend that `policy` picks for `n` points.
pub fn choose_backend(policy: &MsmPolicy, n: usize) -> (r: MsmBackend)
    ensures
        r == (if policy.offload_above.is_some() && n > policy.offload_above.unwrap() {
            MsmBackend::Accelerator
        } else {
            MsmBackend::Processor
        }),
{
    match policy.offload_above {
        Some(threshold) => {
            if n > threshold {
                MsmBackend::Accelerator
            } else {
                MsmBackend::Processor
            }
        },
        None => MsmBackend::Processor,
    }
}

} // verus!
