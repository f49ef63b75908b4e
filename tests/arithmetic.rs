use halo2_arith::bn256::Fr;
use halo2_arith::fft::{best_fft, bitreverse, g_to_lagrange, log2_floor, recursive_butterfly_arithmetic};
use halo2_arith::field::{CurveAffine, FftGroup, PrimeField};
use halo2_arith::msm::{
    best_multiexp, best_multiexp1, choose_backend, get_at, multiexp_serial, small_multiexp,
    window_bits, Bucket, MsmBackend, MsmPolicy,
};
use halo2_arith::parallel::parallelize;
use halo2_arith::poly::{
    compute_inner_product, eval_polynomial, evaluate_vanishing_polynomial, kate_division,
    lagrange_interpolate, powers,
};
use halo2_arith::transform::{
    fixed_width_coordinate, from_u8_to_big_int256, from_u8_to_bool, from_u8_to_u64,
};

fn fr(v: u64) -> Fr {
    Fr::from_u64(v)
}

fn same(a: &Fr, b: &Fr) -> bool {
    a.to_bytes() == b.to_bytes()
}

fn random_fr() -> Fr {
    let mut bytes = [0u8; 32];
    for b in bytes.iter_mut().take(31) {
        *b = rand::random::<u8>();
    }
    Fr::from_bytes(&bytes).unwrap()
}

/// A primitive `2^k`-th root of unity, from halo2curves' two-adic root.
fn root_of_order(k: u32) -> Fr {
    let root = <halo2curves::bn256::Fr as halo2curves::ff::PrimeField>::ROOT_OF_UNITY;
    let s = <halo2curves::bn256::Fr as halo2curves::ff::PrimeField>::S;
    let base = Fr::from_bytes(&root.to_bytes()).unwrap();
    base.pow_vartime(1u64 << (s - k))
}

fn naive_msm(coeffs: &[Fr], bases: &[Fr]) -> Fr {
    let mut acc = fr(0);
    for (c, b) in coeffs.iter().zip(bases.iter()) {
        acc = acc.add(&b.scale(c));
    }
    acc
}

#[test]
fn test_lagrange_interpolate() {
    let points = (0..5).map(|_| random_fr()).collect::<Vec<_>>();
    let evals = (0..5).map(|_| random_fr()).collect::<Vec<_>>();

    for coeffs in 0..5 {
        let points = &points[0..coeffs];
        let evals = &evals[0..coeffs];

        let poly = lagrange_interpolate(points, evals);
        assert_eq!(poly.len(), points.len());

        for (point, eval) in points.iter().zip(evals) {
            assert!(same(&eval_polynomial(&poly, *point), eval));
        }
    }
}

#[test]
fn lagrange_through_small_points() {
    // (1, 3), (2, 5), (3, 7) lie on 1 + 2X.
    let poly = lagrange_interpolate(&[fr(1), fr(2), fr(3)], &[fr(3), fr(5), fr(7)]);
    assert_eq!(poly.len(), 3);
    assert!(same(&poly[0], &fr(1)));
    assert!(same(&poly[1], &fr(2)));
    assert!(same(&poly[2], &fr(0)));
}

#[test]
fn lagrange_single_point_is_constant() {
    let poly = lagrange_interpolate(&[fr(9)], &[fr(4)]);
    assert_eq!(poly.len(), 1);
    assert!(same(&poly[0], &fr(4)));
}

#[test]
fn fft_round_trip_scenario() {
    let k = 3;
    let original: Vec<Fr> = (1..=8).map(fr).collect();
    let omega = root_of_order(k);
    let mut a = original.clone();
    best_fft(&mut a, omega, k);
    let omega_inv = omega.invert().unwrap();
    best_fft(&mut a, omega_inv, k);
    let n_inv = fr(8).invert().unwrap();
    for (x, y) in a.iter().zip(original.iter()) {
        assert!(same(&x.mul(&n_inv), y));
    }
}

#[test]
fn fft_round_trip_random() {
    for k in 1..=10u32 {
        let n = 1usize << k;
        let original: Vec<Fr> = (0..n).map(|_| random_fr()).collect();
        let omega = root_of_order(k);
        let mut a = original.clone();
        best_fft(&mut a, omega, k);
        best_fft(&mut a, omega.invert().unwrap(), k);
        let n_inv = fr(n as u64).invert().unwrap();
        for (x, y) in a.iter().zip(original.iter()) {
            assert!(same(&x.mul(&n_inv), y));
        }
    }
}

#[test]
fn fft_matches_naive_evaluation() {
    for k in 0..=8u32 {
        let n = 1usize << k;
        let coeffs: Vec<Fr> = (0..n).map(|_| random_fr()).collect();
        let omega = root_of_order(k);
        let mut a = coeffs.clone();
        best_fft(&mut a, omega, k);
        for (i, value) in a.iter().enumerate() {
            let point = omega.pow_vartime(i as u64);
            assert!(same(value, &eval_polynomial(&coeffs, point)));
        }
    }
}

#[test]
fn fft_of_constant_sequence() {
    // The transform of (1, 0, 0, 0) is all ones; of (1, 1, 1, 1) is (4, 0, 0, 0).
    let omega = root_of_order(2);
    let mut a = vec![fr(1), fr(0), fr(0), fr(0)];
    best_fft(&mut a, omega, 2);
    for x in &a {
        assert!(same(x, &fr(1)));
    }
    let mut b = vec![fr(1), fr(1), fr(1), fr(1)];
    best_fft(&mut b, omega, 2);
    assert!(same(&b[0], &fr(4)));
    for x in &b[1..] {
        assert!(same(x, &fr(0)));
    }
}

#[test]
fn recursive_butterflies_on_bit_reversed_input() {
    // Input (a0, a1, a2, a3) in bit-reversed order is (a0, a2, a1, a3).
    let k = 2;
    let omega = root_of_order(k);
    let coeffs = vec![fr(5), fr(7), fr(11), fr(13)];
    let mut a = vec![coeffs[0], coeffs[2], coeffs[1], coeffs[3]];
    let twiddles = powers(&omega, 2);
    recursive_butterfly_arithmetic(&mut a, 4, 1, &twiddles);
    for (i, value) in a.iter().enumerate() {
        assert!(same(value, &eval_polynomial(&coeffs, omega.pow_vartime(i as u64))));
    }
}

#[test]
fn bitreverse_values() {
    assert_eq!(bitreverse(1, 3), 4);
    assert_eq!(bitreverse(6, 3), 3);
    assert_eq!(bitreverse(0, 5), 0);
    assert_eq!(bitreverse(1, 1), 1);
    assert_eq!(bitreverse(0b1011, 4), 0b1101);
}

#[test]
fn log2_floor_values() {
    assert_eq!(log2_floor(1), 0);
    assert_eq!(log2_floor(2), 1);
    assert_eq!(log2_floor(8), 3);
    assert_eq!(log2_floor(9), 3);
    assert_eq!(log2_floor(usize::MAX), usize::BITS - 1);
}

#[test]
fn msm_matches_naive_sum() {
    for &n in &[0usize, 1, 2, 3, 5, 31, 32, 33, 100, 300] {
        let coeffs: Vec<Fr> = (0..n).map(|_| random_fr()).collect();
        let bases: Vec<Fr> = (0..n).map(|_| random_fr()).collect();
        let expected = naive_msm(&coeffs, &bases);
        assert!(same(&best_multiexp1(&coeffs, &bases), &expected));
        assert!(same(&best_multiexp(&coeffs, &bases), &expected));
        assert!(same(&small_multiexp(&coeffs, &bases), &expected));
        let mut acc = <Fr as FftGroup<Fr>>::identity();
        multiexp_serial(&coeffs, &bases, &mut acc);
        assert!(same(&acc, &expected));
    }
}

#[test]
fn msm_serial_and_chunked_agree() {
    let n = 257;
    let coeffs: Vec<Fr> = (0..n).map(|_| random_fr()).collect();
    let bases: Vec<Fr> = (0..n).map(|_| random_fr()).collect();
    let mut serial = <Fr as FftGroup<Fr>>::identity();
    multiexp_serial(&coeffs, &bases, &mut serial);
    assert!(same(&serial, &best_multiexp1(&coeffs, &bases)));
}

#[test]
fn msm_small_exact_value() {
    // 2*3 + 4*5 + 6*7 = 68
    let coeffs = vec![fr(2), fr(4), fr(6)];
    let bases = vec![fr(3), fr(5), fr(7)];
    assert!(same(&best_multiexp(&coeffs, &bases), &fr(68)));
    assert!(same(&small_multiexp(&coeffs, &bases), &fr(68)));
}

#[test]
fn msm_with_largest_scalar() {
    // p - 1 times 1 is -1.
    let minus_one = fr(1).neg();
    let coeffs = vec![minus_one, fr(1)];
    let bases = vec![fr(1), fr(1)];
    assert!(same(&best_multiexp(&coeffs, &bases), &fr(0)));
}

#[test]
fn get_at_windows() {
    let mut bytes = [0u8; 32];
    bytes[0] = 0b1011_0110;
    bytes[1] = 0b0000_0001;
    assert_eq!(get_at(0, 3, &bytes), 0b110);
    assert_eq!(get_at(1, 3, &bytes), 0b110);
    assert_eq!(get_at(2, 3, &bytes), 0b110);
    assert_eq!(get_at(0, 8, &bytes), 0b1011_0110);
    assert_eq!(get_at(1, 8, &bytes), 1);
    assert_eq!(get_at(100, 3, &bytes), 0);
    bytes[31] = 0x80;
    assert_eq!(get_at(255, 1, &bytes), 1);
    assert_eq!(get_at(256, 1, &bytes), 0);
}

#[test]
fn window_bits_values() {
    assert_eq!(window_bits(0), 1);
    assert_eq!(window_bits(3), 1);
    assert_eq!(window_bits(4), 3);
    assert_eq!(window_bits(31), 3);
    assert_eq!(window_bits(32), 4);
    assert_eq!(window_bits(54), 4);
    assert_eq!(window_bits(55), 5);
    assert_eq!(window_bits(1000), 7);
    assert_eq!(window_bits(1096), 7);
    assert_eq!(window_bits(1097), 8);
    assert_eq!(window_bits(12851600114359308275), 44);
    assert_eq!(window_bits(12851600114359308276), 45);
}

#[test]
fn bucket_accumulates() {
    let mut b: Bucket<Fr> = Bucket::Empty;
    b.add_assign(&fr(3));
    assert!(matches!(b, Bucket::Affine(_)));
    b.add_assign(&fr(4));
    assert!(matches!(b, Bucket::Projective(_)));
    assert!(same(&b.add(fr(10)), &fr(17)));
    let e: Bucket<Fr> = Bucket::Empty;
    assert!(same(&e.add(fr(10)), &fr(10)));
}

#[test]
fn eval_polynomial_exact() {
    // 1 + 2*2 + 3*4 = 17
    assert!(same(&eval_polynomial(&[fr(1), fr(2), fr(3)], fr(2)), &fr(17)));
    assert!(same(&eval_polynomial(&[], fr(2)), &fr(0)));
    let long: Vec<Fr> = (0..100).map(|_| fr(1)).collect();
    assert!(same(&eval_polynomial(&long, fr(1)), &fr(100)));
}

#[test]
fn eval_polynomial_chunked_matches_horner() {
    let poly: Vec<Fr> = (0..500).map(|_| random_fr()).collect();
    let x = random_fr();
    let mut acc = fr(0);
    for c in poly.iter().rev() {
        acc = acc.mul(&x).add(c);
    }
    assert!(same(&eval_polynomial(&poly, x), &acc));
}

#[test]
fn inner_product_exact() {
    let a = [fr(1), fr(2), fr(3)];
    let b = [fr(4), fr(5), fr(6)];
    assert!(same(&compute_inner_product(&a, &b), &fr(32)));
    assert!(same(&compute_inner_product(&[], &[]), &fr(0)));
}

#[test]
fn powers_exact() {
    let p = powers(&fr(3), 4);
    assert_eq!(p.len(), 4);
    assert!(same(&p[0], &fr(1)));
    assert!(same(&p[1], &fr(3)));
    assert!(same(&p[2], &fr(9)));
    assert!(same(&p[3], &fr(27)));
    assert!(powers(&fr(3), 0).is_empty());
}

#[test]
fn kate_division_exact_at_root() {
    // (X - 2)(X + 3) = X^2 + X - 6
    let a = [fr(6).neg(), fr(1), fr(1)];
    let q = kate_division(&a, fr(2));
    assert_eq!(q.len(), 2);
    assert!(same(&q[0], &fr(3)));
    assert!(same(&q[1], &fr(1)));
}

#[test]
fn kate_division_random_product() {
    let q: Vec<Fr> = (0..20).map(|_| random_fr()).collect();
    let b = random_fr();
    // a = q * (X - b)
    let mut a = vec![fr(0); q.len() + 1];
    for (i, c) in q.iter().enumerate() {
        a[i + 1] = a[i + 1].add(c);
        a[i] = a[i].sub(&c.mul(&b));
    }
    assert!(same(&eval_polynomial(&a, b), &fr(0)));
    let quotient = kate_division(&a, b);
    assert_eq!(quotient.len(), q.len());
    for (x, y) in quotient.iter().zip(q.iter()) {
        assert!(same(x, y));
    }
}

#[test]
fn kate_division_of_constant() {
    assert!(kate_division(&[fr(5)], fr(1)).is_empty());
}

#[test]
fn vanishing_polynomial_values() {
    let roots = [fr(1), fr(2), fr(3)];
    assert!(same(&evaluate_vanishing_polynomial(&roots, fr(2)), &fr(0)));
    assert!(same(&evaluate_vanishing_polynomial(&roots, fr(5)), &fr(24)));
    assert!(same(&evaluate_vanishing_polynomial(&[], fr(5)), &fr(1)));
}

#[test]
fn vanishing_polynomial_many_roots() {
    let roots: Vec<Fr> = (0..200).map(|_| random_fr()).collect();
    let z = random_fr();
    let mut expected = fr(1);
    for r in &roots {
        expected = expected.mul(&z.sub(r));
    }
    assert!(same(&evaluate_vanishing_polynomial(&roots, z), &expected));
    assert!(same(&evaluate_vanishing_polynomial(&roots, roots[117]), &fr(0)));
}

#[test]
fn parallelize_covers_every_element_once() {
    let mut v = vec![0usize; 37];
    parallelize(&mut v, |chunk: &mut [usize], start: usize| {
        for (i, x) in chunk.iter_mut().enumerate() {
            *x += start + i;
        }
    });
    for (i, x) in v.iter().enumerate() {
        assert_eq!(*x, i);
    }
    let mut empty: Vec<usize> = Vec::new();
    parallelize(&mut empty, |_chunk: &mut [usize], _start: usize| {});
    assert!(empty.is_empty());
}

#[test]
fn field_operations() {
    assert!(same(&fr(5).add(&fr(7)), &fr(12)));
    assert!(same(&fr(3).sub(&fr(5)).add(&fr(2)), &fr(0)));
    assert!(same(&fr(6).mul(&fr(7)), &fr(42)));
    assert!(same(&fr(2).invert().unwrap().mul(&fr(2)), &fr(1)));
    assert!(fr(0).invert().is_none());
    assert!(same(&fr(3).pow_vartime(4), &fr(81)));
    assert!(same(&fr(1).neg().add(&fr(1)), &fr(0)));
    assert!(!same(&fr(1).neg(), &fr(1)));
    assert!(same(&<Fr as PrimeField>::zero(), &fr(0)));
    assert!(same(&<Fr as PrimeField>::one(), &fr(1)));
    assert_eq!(fr(258).to_repr()[0], 2);
    assert_eq!(fr(258).to_repr()[1], 1);
}

#[test]
fn field_bytes_must_be_canonical() {
    assert!(Fr::from_bytes(&[0xff; 32]).is_none());
    let mut one = [0u8; 32];
    one[0] = 1;
    assert!(same(&Fr::from_bytes(&one).unwrap(), &fr(1)));
    // p - 1 is canonical, p is not.
    let minus_one = fr(1).neg().to_bytes();
    assert!(Fr::from_bytes(&minus_one).is_some());
    let mut p = minus_one;
    p[0] += 1;
    assert!(Fr::from_bytes(&p).is_none());
}

#[test]
fn group_and_affine_operations() {
    let a = fr(10);
    let b = fr(4);
    assert!(same(&a.add_elem(&b), &fr(14)));
    assert!(same(&a.sub_elem(&b), &fr(6)));
    assert!(same(&a.double(), &fr(20)));
    assert!(same(&a.scale(&b), &fr(40)));
    assert!(same(&a.add_affine(&b), &fr(14)));
    assert!(same(&a.add_to_curve(&b), &fr(14)));
    assert!(same(&a.to_curve(), &fr(10)));
    assert!(same(&<Fr as CurveAffine>::from_curve(&a), &fr(10)));
    assert!(same(&<Fr as CurveAffine>::affine_identity(), &fr(0)));
}

#[test]
fn byte_conversions() {
    assert_eq!(
        from_u8_to_bool(0b1010_0001),
        [true, false, true, false, false, false, false, true]
    );
    assert_eq!(from_u8_to_u64(&[1, 2, 3, 4, 5, 6, 7, 8]), 0x0807060504030201);
    let mut data = [0u8; 32];
    for (i, d) in data.iter_mut().enumerate() {
        *d = i as u8;
    }
    let limbs = from_u8_to_big_int256(&data);
    assert_eq!(limbs[0], 0x0706050403020100);
    assert_eq!(limbs[3], 0x1f1e1d1c1b1a1918);
}

#[test]
fn g_to_lagrange_inverts_the_transform() {
    let k = 3u32;
    let coeffs: Vec<Fr> = (0..8).map(|_| random_fr()).collect();
    let lagrange: Vec<Fr> = g_to_lagrange::<Fr>(coeffs.clone(), k);
    assert_eq!(lagrange.len(), 8);
    // The forward transform at the root whose inverse was used restores the input.
    let root_inv = <halo2curves::bn256::Fr as halo2curves::ff::PrimeField>::ROOT_OF_UNITY_INV;
    let s = <halo2curves::bn256::Fr as halo2curves::ff::PrimeField>::S;
    let omega_inv = Fr::from_bytes(&root_inv.to_bytes()).unwrap().pow_vartime(1u64 << (s - k));
    let omega = omega_inv.invert().unwrap();
    let mut back = lagrange.clone();
    best_fft(&mut back, omega, k);
    for (x, y) in back.iter().zip(coeffs.iter()) {
        assert!(same(x, y));
    }
}

#[test]
fn g_to_lagrange_of_single_point() {
    let out: Vec<Fr> = g_to_lagrange::<Fr>(vec![fr(42)], 0);
    assert_eq!(out.len(), 1);
    assert!(same(&out[0], &fr(42)));
}

#[test]
fn fixed_width_coordinates() {
    let long: Vec<u8> = (0..40).collect();
    let fixed = fixed_width_coordinate(&long[..32]).unwrap();
    assert_eq!(fixed[0], 0);
    assert_eq!(fixed[31], 31);
    assert!(fixed_width_coordinate(&long[..31]).is_none());
    assert!(fixed_width_coordinate(&long[..33]).is_none());
    assert!(fixed_width_coordinate(&long).is_none());
    assert!(fixed_width_coordinate(&[]).is_none());
}

#[test]
fn msm_backend_follows_policy() {
    let cpu = MsmPolicy { offload_above: None };
    assert_eq!(choose_backend(&cpu, 0), MsmBackend::Processor);
    assert_eq!(choose_backend(&cpu, 1 << 20), MsmBackend::Processor);
    let offload = MsmPolicy { offload_above: Some(16384) };
    assert_eq!(choose_backend(&offload, 16384), MsmBackend::Processor);
    assert_eq!(choose_backend(&offload, 16385), MsmBackend::Accelerator);
    let always = MsmPolicy { offload_above: Some(0) };
    assert_eq!(choose_backend(&always, 0), MsmBackend::Processor);
    assert_eq!(choose_backend(&always, 1), MsmBackend::Accelerator);
}

#[test]
fn msm_with_nonidentity_accumulator() {
    // Three points: window 1, 257 windows, so acc is doubled 257 times.
    let coeffs = vec![fr(2), fr(4), fr(6)];
    let bases = vec![fr(3), fr(5), fr(7)];
    let mut acc = fr(1);
    multiexp_serial(&coeffs, &bases, &mut acc);
    let expected = fr(2).pow_vartime(257).add(&fr(68));
    assert!(same(&acc, &expected));
}

#[test]
fn parallelize_chunk_layout() {
    let t = rayon::current_num_threads();
    for n in [1usize, 2, 7, 10, 37, 100] {
        let calls = std::sync::Mutex::new(Vec::new());
        let mut v = vec![0u8; n];
        parallelize(&mut v, |chunk: &mut [u8], start: usize| {
            calls.lock().unwrap().push((start, chunk.len()));
        });
        let mut calls = calls.into_inner().unwrap();
        calls.sort();
        let count = t.min(n);
        let len = std::cmp::max(n / t, 1);
        assert_eq!(calls.len(), count);
        for (k, (start, l)) in calls.iter().enumerate() {
            assert_eq!(*start, k * len);
            if k + 1 == count {
                assert_eq!(*l, n - k * len);
            } else {
                assert_eq!(*l, len);
            }
        }
    }
}

#[test]
fn batch_inversion_keeps_zero() {
    let mut v = vec![fr(2), fr(0), fr(5)];
    <Fr as PrimeField>::batch_invert(&mut v);
    assert!(same(&v[0].mul(&fr(2)), &fr(1)));
    assert!(same(&v[1], &fr(0)));
    assert!(same(&v[2].mul(&fr(5)), &fr(1)));
}

#[test]
fn root_of_unity_inverse_has_order_two_to_the_s() {
    let inv = <Fr as PrimeField>::root_of_unity_inv();
    assert_eq!(<Fr as PrimeField>::two_adicity_s(), 28);
    let minus_one = fr(1).neg();
    let root = Fr::from_bytes(
        &<halo2curves::bn256::Fr as halo2curves::ff::PrimeField>::ROOT_OF_UNITY.to_bytes(),
    )
    .unwrap();
    assert!(same(&inv.mul(&root), &fr(1)));
    assert!(same(&inv.pow_vartime(1u64 << 27), &minus_one));
    assert!(!same(&inv.pow_vartime(1u64 << 26), &minus_one));
    // The root is 7^t with t = (r - 1) / 2^28.
    let t = [0x9b9709143e1f593f, 0x181585d2833e8487, 0x131a029b85045b68, 0x30644e72e];
    let seven_t = halo2curves::ff::Field::pow_vartime(&halo2curves::bn256::Fr::from(7u64), t);
    assert!(same(&Fr::from_bytes(&seven_t.to_bytes()).unwrap(), &root));
}
