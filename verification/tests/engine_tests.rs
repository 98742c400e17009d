use sumcheck::arithmetic::{
    adaptive_dot_product_accumulate, extrapolate_dot_product, finalize_delayed_reduction, small_big_mac_raw,
    small_big_mul_raw,
};
use sumcheck::bigint_field::StdFr2;
use sumcheck::engine::{
    compute_kernel, compute_lagrange_denominator_invs, fold_hypercube_chunk, get_u_domain, get_u_hat_domain,
    multi_product_eval, multivariate_extrapolate, precompute_kernel_cache, EvaluationPoint,
};

fn fe(x: u64) -> StdFr2 {
    StdFr2::from_u64(x)
}

fn neg(x: u64) -> StdFr2 {
    StdFr2::zero().sub(&fe(x))
}

#[test]
fn domains() {
    use_points();
}

fn use_points() {
    let inf = EvaluationPoint::Infinity;
    let v = EvaluationPoint::Value;
    assert_eq!(get_u_domain(3), vec![inf, v(0), v(1), v(2)]);
    assert_eq!(get_u_hat_domain(3), vec![inf, v(1), v(2)]);
    assert_eq!(get_u_hat_domain(1), vec![inf]);
}

#[test]
fn denominators_and_kernels() {
    // nodes 0, 1, 2: prod_{j != i} (i - j) = 2, -1, 2
    let inv = compute_lagrange_denominator_invs(3);
    let half = fe(2).inverse();
    assert!(inv == vec![half, neg(1), half]);
    // extrapolating from {0, 1} to 2: c_inf = 2, L_0(2) = -1, L_1(2) = 2
    let kernel = compute_kernel(2);
    assert!(kernel == vec![fe(2), neg(1), fe(2)]);
    let cache = precompute_kernel_cache(3);
    assert!(cache[0].is_none());
    let k2 = cache[2].as_ref().unwrap();
    assert!(k2.kernel_inf == fe(2) && k2.kernel_classical == vec![neg(1), fe(2)]);
    assert_eq!(k2.kernel_classical_bigints, vec![neg(1).0, fe(2).0]);
}

#[test]
fn folding_a_chunk_is_the_multilinear_extension() {
    // f(x0, x1) with f(0,0)=1, f(1,0)=2, f(0,1)=3, f(1,1)=5 at (4, 7)
    // fold x0: [1 + 4, 3 + 4*2] = [5, 11]; fold x1: 5 + 7*6 = 47
    let r = fold_hypercube_chunk(&[fe(1), fe(2), fe(3), fe(5)], &[fe(4), fe(7)]);
    assert!(r == fe(47));
}

#[test]
fn product_grid_of_two_lines() {
    // p = [2, 5], q = [3, 4]: at inf (5-2)(4-3) = 3, at 0 2*3 = 6, at 1 5*4 = 20
    let cache = precompute_kernel_cache(2);
    let g = multi_product_eval(&[vec![fe(2), fe(5)], vec![fe(3), fe(4)]], 2, 1, &cache);
    assert!(g == vec![fe(3), fe(6), fe(20)]);
}

#[test]
fn extrapolating_a_line_to_three_points() {
    // f(x) = 2 + 3x on {inf, 0}: k = 1 gives the grid [3, 2]; extended to {inf, 0, 1}
    let cache = precompute_kernel_cache(1);
    let g = multivariate_extrapolate(&[fe(3), fe(2)], 1, 1, 1, &cache);
    assert!(g == vec![fe(3), fe(2), fe(5)]);
}

#[test]
fn small_big_products() {
    let x = StdFr2([u64::MAX, u64::MAX, 0, 0]);
    assert!(small_big_mul_raw(3, &x) == x.mul_sb(3));
    let big = neg(1);
    assert!(small_big_mul_raw(u64::MAX, &big) == big.mul_sb(u64::MAX));
    let mut t = [0u64; 6];
    small_big_mac_raw(&mut t, 2, &big.0);
    small_big_mac_raw(&mut t, 5, &fe(7).0);
    assert!(finalize_delayed_reduction(&t) == neg(2).add(&fe(35)));
}

#[test]
fn dot_products() {
    let window = vec![fe(2), neg(1), fe(3)];
    let coeffs = vec![fe(4), fe(5), neg(2)];
    let mut acc = fe(1);
    adaptive_dot_product_accumulate(&mut acc, &window, &coeffs);
    // 1 + 8 - 5 - 6 = -2
    assert!(acc == neg(2));
    let mut acc = fe(0);
    let limbs: Vec<[u64; 4]> = coeffs.iter().map(|c| c.0).collect();
    extrapolate_dot_product(&mut acc, &window, &limbs, &coeffs);
    assert!(acc == neg(3));
    // from the threshold on: the delayed reduction
    let window: Vec<StdFr2> = (0..20).map(|i| fe(i)).collect();
    let coeffs: Vec<StdFr2> = (0..20).map(|i| neg(i + 1)).collect();
    let limbs: Vec<[u64; 4]> = coeffs.iter().map(|c| c.0).collect();
    let mut acc = fe(0);
    extrapolate_dot_product(&mut acc, &window, &limbs, &coeffs);
    let expected: u64 = (0..20u64).map(|i| i * (i + 1)).sum();
    assert!(acc == neg(expected));
}

/// x^2 + y^2 read on a grid point: digit 0 stands for infinity (the coefficient of the
/// top power, k = 2, in that variable), digit t + 1 for the value t.
fn sum_of_squares(dx: u64, dy: u64) -> u64 {
    match (dx, dy) {
        (0, 0) => 0,
        (0, _) | (_, 0) => 1,
        (a, b) => (a - 1) * (a - 1) + (b - 1) * (b - 1),
    }
}

#[test]
fn extrapolating_a_polynomial_that_is_no_product() {
    // f(x, y) = x^2 + y^2 has degree 2 in each variable; from U_2^2 to U_4^2.
    let cache = precompute_kernel_cache(2);
    let initial: Vec<StdFr2> = (0..9u64).map(|i| fe(sum_of_squares(i % 3, i / 3))).collect();
    let g = multivariate_extrapolate(&initial, 2, 2, 2, &cache);
    assert_eq!(g.len(), 25);
    for i in 0..25u64 {
        assert!(g[i as usize] == fe(sum_of_squares(i % 5, i / 5)), "entry {i}");
    }
}
