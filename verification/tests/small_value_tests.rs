use sumcheck::bigint_field::StdFr2;
use sumcheck::small_value::{fast_dot_product, run_sc_protocol_improved_checked, sc_protocol_improved};

fn fe(x: u64) -> StdFr2 {
    StdFr2::from_u64(x)
}

#[test]
fn fast_dot_product_mixes_the_paths() {
    let coeffs = vec![fe(1), fe(0), fe(5), fe(1)];
    assert!(fast_dot_product(&[2, 3, 4, 7], &coeffs) == fe(29));
    // unit coefficients only: the 128-bit accumulator
    let ones = vec![fe(1); 3];
    assert!(fast_dot_product(&[u64::MAX, u64::MAX, 2], &ones) == StdFr2([0, 2, 0, 0]));
    // a large coefficient
    let minus_one = StdFr2::zero().sub(&fe(1));
    assert!(fast_dot_product(&[3], &[minus_one]) == StdFr2::zero().sub(&fe(3)));
}

#[test]
fn transcript_of_a_small_table() {
    let (sum, proofs) = sc_protocol_improved(2, &[1, 2, 3, 4]);
    assert!(sum == fe(10));
    assert_eq!(proofs.len(), 2);
    assert!(proofs[0].0 == fe(4) && proofs[0].1 == fe(6));
    // folded with r = 2: [1 + 2 (2 - 1), 3 + 2 (4 - 3)] = [3, 5]
    assert!(proofs[1].0 == fe(3) && proofs[1].1 == fe(5));
}

#[test]
fn honest_sum_accepted_wrong_sum_rejected() {
    let evals: Vec<u64> = (0..16).map(|i| (i * 7 + 3) % 6).collect();
    let total: u64 = evals.iter().sum();
    assert!(run_sc_protocol_improved_checked(4, &evals, fe(total)));
    assert!(!run_sc_protocol_improved_checked(4, &evals, fe(total + 1)));
}
