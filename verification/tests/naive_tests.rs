use itertools::Itertools;
use rand::Rng;
use sumcheck::bigint_field::StdFr2;
use sumcheck::naive::{
    compute_hypercube_sum, find_polynomial_coeff, generate_evaluations_from_poly, generate_small_evaluations_from_poly,
    i_to_boolean_point, p_i_coeff, poly_type, prover_i, sc_protocol, sc_protocol_with_challenges, verifier_final,
    verifier_i, PolyType, SparsePoly,
};

fn fe(x: u64) -> StdFr2 {
    StdFr2::from_u64(x)
}

/// x0 + 2 x0 x1
fn sample_poly() -> SparsePoly {
    SparsePoly { num_vars: 2, terms: vec![(fe(1), vec![(0, 1)]), (fe(2), vec![(0, 1), (1, 1)])] }
}

#[test]
fn test_sumcheck_multilinear() {
    println!("\n--- Launching Sumcheck Protocol Test (multilinear testing) ---");
    let mut rng = rand::thread_rng();
    let n: usize = rng.gen_range(2..=10);
    println!("--- Generating a multilinear polynomial with {n} variables ---");
    let mut all_monomials: Vec<Vec<usize>> = (0..n).powerset().collect();
    let num_monomial = rng.gen_range(2..=8);
    let mut terms = Vec::with_capacity(num_monomial);
    for _ in 1..num_monomial {
        let coeff = fe(rng.gen_range(1..=10));
        let term = if let Some(var_index_vec) = all_monomials.pop() {
            let term_vec: Vec<(usize, usize)> = var_index_vec.into_iter().map(|index_var| (index_var, 1)).collect();
            term_vec
        } else {
            continue;
        };
        terms.push((coeff, term));
    }
    let poly = SparsePoly { num_vars: n, terms };
    let gamma = compute_hypercube_sum(&poly);
    let result = sc_protocol(&poly, gamma);
    assert!(result, "The sumcheck protocol failed but it was expected to succeed!");
}

#[test]
fn boolean_points_are_little_endian_bits() {
    let p = i_to_boolean_point(5, 3);
    assert!(p[0] == fe(1) && p[1] == fe(0) && p[2] == fe(1));
    assert_eq!(i_to_boolean_point(5, 0).len(), 0);
}

#[test]
fn poly_type_detects_powers() {
    assert!(matches!(poly_type(&sample_poly()), PolyType::Multilinear));
    let square = SparsePoly { num_vars: 2, terms: vec![(fe(1), vec![(0, 2), (1, 1)]), (fe(1), vec![(1, 1)])] };
    assert!(matches!(poly_type(&square), PolyType::Multivariate(3)));
}

#[test]
fn hypercube_sum_and_evaluations() {
    let poly = sample_poly();
    // points (0,0), (1,0), (0,1), (1,1): 0, 1, 0, 3
    assert!(compute_hypercube_sum(&poly) == fe(4));
    let evals = generate_evaluations_from_poly(&poly);
    assert!(evals == vec![fe(0), fe(1), fe(0), fe(3)]);
    assert_eq!(generate_small_evaluations_from_poly(&poly), vec![0, 1, 0, 3]);
}

#[test]
fn split_along_a_variable() {
    let poly = sample_poly();
    // along x0: A = 1 + 2 x1, B = 0
    let (a_x, b_x) = find_polynomial_coeff(&poly, 0);
    assert_eq!(a_x.num_vars, 2);
    assert!(b_x.terms.is_empty());
    let total: u64 = a_x.terms.iter().map(|(c, _)| c.0[0]).sum();
    assert_eq!(total, 3);
    // the round-0 line: a = A(0) + A(1) = 4, b = 0
    let (a, b) = p_i_coeff(0, &poly, &[]);
    assert!(a == fe(4) && b == fe(0));
    // round 1 after x0 = 3: p(x1) = 3 + 6 x1
    let (a, b) = p_i_coeff(1, &poly, &[fe(3)]);
    assert!(a == fe(6) && b == fe(3));
    let p = prover_i(1, &poly, &PolyType::Multilinear, &[fe(3)]);
    assert!(p == vec![fe(3), fe(6)]);
}

#[test]
fn verifier_checks_the_line() {
    // p(X) = 1 + 2 X: p(0) + p(1) = 4
    assert!(verifier_i(&[fe(1), fe(2)], fe(4), fe(7)) == Ok(fe(7)));
    assert!(verifier_i(&[fe(1), fe(2)], fe(5), fe(7)).is_err());
    let poly = sample_poly();
    // x0 + 2 x0 x1 at (2, 3) = 2 + 12
    assert!(verifier_final(&poly, fe(14), &[fe(2), fe(3)]));
    assert!(!verifier_final(&poly, fe(13), &[fe(2), fe(3)]));
}

#[test]
fn protocol_with_fixed_challenges() {
    let poly = sample_poly();
    assert!(sc_protocol_with_challenges(&poly, fe(4), &[fe(5), fe(9)]));
    assert!(!sc_protocol_with_challenges(&poly, fe(5), &[fe(5), fe(9)]));
    assert!(!sc_protocol(&poly, fe(3)));
}
