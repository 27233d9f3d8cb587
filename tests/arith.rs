use ff::{Field, PrimeField};
use halo2_arith::curve::Point;
use halo2_arith::fft::{cpu_fft, cpu_fft_with, g_to_lagrange, recursive_butterfly_arithmetic, FftGroup};
use halo2_arith::field::Scalar;
use halo2_arith::msm::{best_multiexp, multiexp_cpu, multiexp_with, small_multiexp, window_size};
use halo2_arith::parallel::{chunk_ranges, log2_floor, parallelize, parallelize_with};
use halo2_arith::poly::{
    compute_inner_product, eval_polynomial, eval_polynomial_with, evaluate_vanishing_polynomial,
    evaluate_vanishing_with, kate_division, lagrange_interpolate,
};
use halo2curves::bn256::Fr;
use rand_core::OsRng;

fn sc(f: Fr) -> Scalar {
    Scalar { limbs: f.into() }
}

fn random_scalar() -> Scalar {
    sc(Fr::random(OsRng))
}

fn random_point() -> Point {
    Point::generator().mul(&random_scalar())
}

/// A primitive `2^k`-th root of unity.
fn omega_for(k: u32) -> Scalar {
    let mut w = Fr::ROOT_OF_UNITY;
    for _ in k..Fr::S {
        w = w.square();
    }
    sc(w)
}

#[test]
fn test_lagrange_interpolate() {
    let points = (0..5).map(|_| random_scalar()).collect::<Vec<_>>();
    let evals = (0..5).map(|_| random_scalar()).collect::<Vec<_>>();

    for coeffs in 0..5 {
        let points = &points[0..coeffs];
        let evals = &evals[0..coeffs];

        let poly = lagrange_interpolate(points, evals);
        assert_eq!(poly.len(), points.len());

        for (point, eval) in points.iter().zip(evals) {
            assert_eq!(eval_polynomial(&poly, *point), *eval);
        }
    }
}

#[test]
fn lagrange_interpolate_known_line() {
    // the line through (1, 3) and (2, 5) is 1 + 2x
    let poly = lagrange_interpolate(&[Scalar::from_u64(1), Scalar::from_u64(2)], &[Scalar::from_u64(3), Scalar::from_u64(5)]);
    assert_eq!(poly, vec![Scalar::from_u64(1), Scalar::from_u64(2)]);
    let one = lagrange_interpolate(&[Scalar::from_u64(9)], &[Scalar::from_u64(4)]);
    assert_eq!(one, vec![Scalar::from_u64(4)]);
}

#[test]
fn msm_matches_double_and_add() {
    for n in [0usize, 1, 2, 3, 5, 17, 40, 70] {
        let coeffs: Vec<Scalar> = (0..n).map(|_| random_scalar()).collect();
        let bases: Vec<Point> = (0..n).map(|_| random_point()).collect();
        let reference = small_multiexp(&coeffs, &bases);
        assert!(multiexp_cpu(&coeffs, &bases).eq_point(&reference));
        assert!(best_multiexp(&coeffs, &bases).eq_point(&reference));
    }
}

#[test]
fn msm_same_for_any_thread_count() {
    let coeffs: Vec<Scalar> = (0..37).map(|_| random_scalar()).collect();
    let bases: Vec<Point> = (0..37).map(|_| random_point()).collect();
    let one = multiexp_with(&coeffs, &bases, 1);
    for threads in [2usize, 3, 8, 36, 37, 100] {
        assert!(multiexp_with(&coeffs, &bases, threads).eq_point(&one));
    }
}

#[test]
fn msm_three_p_plus_five_q() {
    let p = Point::generator().mul(&Scalar::from_u64(11));
    let q = Point::generator().mul(&Scalar::from_u64(23));
    let three_p = p.double().add(&p);
    let five_q = q.double().double().add(&q);
    let expected = three_p.add(&five_q);
    let coeffs = [Scalar::from_u64(3), Scalar::from_u64(5)];
    let bases = [p, q];
    assert!(multiexp_cpu(&coeffs, &bases).eq_point(&expected));
    assert!(small_multiexp(&coeffs, &bases).eq_point(&expected));
    assert!(expected.eq_point(&Point::generator().mul(&Scalar::from_u64(3 * 11 + 5 * 23))));
}

#[test]
fn msm_with_zero_and_top_scalars() {
    let minus_one = Scalar::from_u64(1).neg();
    let coeffs = [Scalar::zero(), minus_one, Scalar::from_u64(1)];
    let g = Point::generator();
    let bases = [g, g, g];
    assert!(multiexp_cpu(&coeffs, &bases).eq_point(&Point::identity()));
}

#[test]
fn window_sizes() {
    assert_eq!(window_size(0), 1);
    assert_eq!(window_size(3), 1);
    assert_eq!(window_size(4), 3);
    assert_eq!(window_size(31), 3);
    assert_eq!(window_size(32), 4);
    assert_eq!(window_size(54), 4);
    assert_eq!(window_size(55), 5);
    assert_eq!(window_size(1024), 7);
}

fn naive_dft(a: &[Scalar], omega: Scalar) -> Vec<Scalar> {
    (0..a.len()).map(|k| eval_polynomial(a, omega.pow_u64(k as u64))).collect()
}

#[test]
fn fft_evaluates_at_powers_of_omega() {
    for k in 1..=5u32 {
        let n = 1usize << k;
        let a: Vec<Scalar> = (0..n).map(|_| random_scalar()).collect();
        let omega = omega_for(k);
        let mut b = a.clone();
        cpu_fft(&mut b, omega, k);
        assert_eq!(b, naive_dft(&a, omega));
    }
}

fn round_trip(k: u32) {
    let n = 1usize << k;
    let a: Vec<Scalar> = (0..n).map(|_| random_scalar()).collect();
    let omega = omega_for(k);
    let omega_inv = omega.invert().unwrap();
    let n_inv = Scalar::from_u64(n as u64).invert().unwrap();
    let mut b = a.clone();
    cpu_fft(&mut b, omega, k);
    cpu_fft(&mut b, omega_inv, k);
    let b: Vec<Scalar> = b.iter().map(|x| x.mul(&n_inv)).collect();
    assert_eq!(b, a);
}

#[test]
fn fft_round_trip_small_sizes() {
    for k in 0..=8u32 {
        round_trip(k);
    }
}

#[test]
fn fft_round_trip_1024() {
    round_trip(10);
}

#[test]
fn fft_flat_and_recursive_agree() {
    for k in 1..=7u32 {
        let n = 1usize << k;
        let a: Vec<Scalar> = (0..n).map(|_| random_scalar()).collect();
        let omega = omega_for(k);
        let mut recursive = a.clone();
        cpu_fft_with(&mut recursive, omega, k, 1);
        let mut flat = a.clone();
        cpu_fft_with(&mut flat, omega, k, 1 << 20);
        assert_eq!(recursive, flat);
    }
}

#[test]
fn recursive_butterfly_of_two() {
    let mut a = vec![Scalar::from_u64(5), Scalar::from_u64(3)];
    let tw = vec![Scalar::one()];
    recursive_butterfly_arithmetic(&mut a, 2, 1, &tw);
    assert_eq!(a, vec![Scalar::from_u64(8), Scalar::from_u64(2)]);
}

#[test]
fn fft_on_points_matches_fft_on_logs() {
    let k = 3u32;
    let logs: Vec<Scalar> = (0..8).map(|_| random_scalar()).collect();
    let mut points: Vec<Point> = logs.iter().map(|s| Point::generator().mul(s)).collect();
    let mut scalars = logs.clone();
    let omega = omega_for(k);
    cpu_fft(&mut points, omega, k);
    cpu_fft(&mut scalars, omega, k);
    for (p, s) in points.iter().zip(scalars.iter()) {
        assert!(p.eq_point(&Point::generator().mul(s)));
    }
}

#[test]
fn g_to_lagrange_inverts_fft() {
    let k = 3u32;
    let g: Vec<Point> = (0..8).map(|_| random_point()).collect();
    let mut lag = g_to_lagrange(g.clone(), k);
    cpu_fft(&mut lag, omega_for(k), k);
    for (x, y) in lag.iter().zip(g.iter()) {
        assert!(x.eq_point(y));
    }
}

#[test]
fn eval_polynomial_exact() {
    let poly = [Scalar::from_u64(1), Scalar::from_u64(2), Scalar::from_u64(3)];
    assert_eq!(eval_polynomial(&poly, Scalar::from_u64(2)), Scalar::from_u64(17));
    assert_eq!(eval_polynomial(&[], Scalar::from_u64(2)), Scalar::zero());
}

#[test]
fn inner_product_exact() {
    let a = [Scalar::from_u64(1), Scalar::from_u64(2), Scalar::from_u64(3)];
    let b = [Scalar::from_u64(4), Scalar::from_u64(5), Scalar::from_u64(6)];
    assert_eq!(compute_inner_product(&a, &b), Scalar::from_u64(32));
    assert_eq!(compute_inner_product(&[], &[]), Scalar::zero());
}

#[test]
fn vanishing_polynomial_exact() {
    let roots = [Scalar::from_u64(1), Scalar::from_u64(2)];
    assert_eq!(evaluate_vanishing_polynomial(&roots, Scalar::from_u64(5)), Scalar::from_u64(12));
    assert_eq!(evaluate_vanishing_polynomial(&roots, Scalar::from_u64(2)), Scalar::zero());
    assert_eq!(evaluate_vanishing_polynomial(&[], Scalar::from_u64(7)), Scalar::one());
}

#[test]
fn kate_division_recovers_quotient() {
    // (x - 2)(x + 3) = x^2 + x - 6
    let minus_six = Scalar::from_u64(6).neg();
    let a = [minus_six, Scalar::from_u64(1), Scalar::from_u64(1)];
    let q = kate_division(&a, Scalar::from_u64(2));
    assert_eq!(q, vec![Scalar::from_u64(3), Scalar::from_u64(1)]);
    assert_eq!(kate_division(&[Scalar::from_u64(4)], Scalar::from_u64(2)), vec![]);
}

#[test]
fn kate_division_times_linear_factor() {
    let b = random_scalar();
    let q: Vec<Scalar> = (0..6).map(|_| random_scalar()).collect();
    // a = (x - b) * q
    let mut a = vec![Scalar::zero(); q.len() + 1];
    for (i, c) in q.iter().enumerate() {
        a[i] = a[i].sub(&c.mul(&b));
        a[i + 1] = a[i + 1].add(c);
    }
    assert_eq!(eval_polynomial(&a, b), Scalar::zero());
    assert_eq!(kate_division(&a, b), q);
}

#[test]
fn chunks_partition_the_range() {
    for total in 0..40usize {
        for threads in 1..12usize {
            let r = chunk_ranges(total, threads);
            assert_eq!(r.len(), total.min(threads));
            let mut next = 0;
            for &(start, len) in &r {
                assert_eq!(start, next);
                assert!(len >= 1);
                assert!(len == total / threads || len == total / threads + 1);
                next = start + len;
            }
            assert_eq!(next, total);
        }
    }
    assert_eq!(chunk_ranges(40, 12)[0], (0, 4));
    assert_eq!(chunk_ranges(40, 12)[4], (16, 3));
}

#[test]
fn parallelize_hands_out_offsets() {
    for threads in [1usize, 3, 7, 50] {
        let mut v = vec![0usize; 23];
        parallelize_with(&mut v, threads, |c: Vec<usize>, o: usize| {
            (0..c.len()).map(|i| o + i).collect::<Vec<usize>>()
        });
        assert_eq!(v, (0..23).collect::<Vec<usize>>());
    }
    let mut w = vec![1u64; 10];
    parallelize(&mut w, |c: Vec<u64>, _o: usize| c.iter().map(|x| x * 2).collect::<Vec<u64>>());
    assert_eq!(w, vec![2u64; 10]);
}

#[test]
fn log2_floor_values() {
    assert_eq!(log2_floor(1), 0);
    assert_eq!(log2_floor(2), 1);
    assert_eq!(log2_floor(3), 1);
    assert_eq!(log2_floor(1024), 10);
    assert_eq!(log2_floor(1025), 10);
    assert_eq!(log2_floor(usize::MAX), 63);
}

#[test]
fn scalar_operations() {
    let r_minus_one = sc(-Fr::ONE);
    assert_eq!(Scalar::from_u64(1).sub(&Scalar::from_u64(2)), r_minus_one);
    assert_eq!(Scalar::from_u64(1).neg(), r_minus_one);
    assert_eq!(Scalar::from_u64(6).mul(&Scalar::from_u64(7)), Scalar::from_u64(42));
    assert_eq!(r_minus_one.add(&Scalar::from_u64(3)), Scalar::from_u64(2));
    let half = Scalar::from_u64(2).invert().unwrap();
    assert_eq!(half.mul(&Scalar::from_u64(2)), Scalar::one());
    assert!(Scalar::zero().invert().is_none());
    assert_eq!(Scalar::from_u64(3).pow_u64(4), Scalar::from_u64(81));
}

#[test]
fn point_operations() {
    let g = Point::generator();
    assert!(g.add(&g).eq_point(&g.double()));
    assert!(g.sub(&g).eq_point(&Point::identity()));
    assert!(!g.eq_point(&Point::identity()));
    assert!(g.mul(&Scalar::from_u64(3)).eq_point(&g.double().add(&g)));
    let pts = vec![g.double(), Point::identity(), g];
    let norm = Point::batch_normalize(&pts);
    for (a, b) in norm.iter().zip(pts.iter()) {
        assert!(a.eq_point(b));
    }
    assert!(g.group_add(&g).eq_point(&g.double()));
}

#[test]
fn chunked_evaluation_matches_horner() {
    let poly: Vec<Scalar> = (0..29).map(|_| random_scalar()).collect();
    let x = random_scalar();
    let serial = eval_polynomial_with(&poly, x, 1);
    let mut expected = Scalar::zero();
    for c in poly.iter().rev() {
        expected = expected.mul(&x).add(c);
    }
    assert_eq!(serial, expected);
    for threads in [2usize, 3, 4, 7, 16, 57, 64] {
        assert_eq!(eval_polynomial_with(&poly, x, threads), expected);
    }
}

#[test]
fn chunked_vanishing_matches_product() {
    let roots: Vec<Scalar> = (0..23).map(|_| random_scalar()).collect();
    let z = random_scalar();
    let mut expected = Scalar::one();
    for r in &roots {
        expected = expected.mul(&z.sub(r));
    }
    for threads in [1usize, 2, 5, 8, 46, 47, 100] {
        assert_eq!(evaluate_vanishing_with(&roots, z, threads), expected);
    }
}

#[test]
fn canonical_limbs() {
    let r_minus_one = sc(-Fr::ONE);
    assert!(r_minus_one.is_canonical());
    let mut r = r_minus_one;
    r.limbs[0] += 1;
    assert!(!r.is_canonical());
    assert!(!Scalar { limbs: [0, 0, 0, u64::MAX] }.is_canonical());
    assert!(Scalar::zero().is_canonical());
    assert!(Scalar::zero().is_valid());
    assert!(Point::identity().is_valid());
}

#[test]
fn evaluators_on_the_pool() {
    let poly: Vec<Scalar> = (0..200).map(|_| random_scalar()).collect();
    let x = random_scalar();
    assert_eq!(eval_polynomial(&poly, x), eval_polynomial_with(&poly, x, 1));
    let roots: Vec<Scalar> = (0..200).map(|_| random_scalar()).collect();
    assert_eq!(
        evaluate_vanishing_polynomial(&roots, x),
        evaluate_vanishing_with(&roots, x, 1)
    );
    assert_eq!(evaluate_vanishing_polynomial(&roots, roots[137]), Scalar::zero());
}
