use sumcheck::bigint_field::StdFr2;
use sumcheck::bigint_sumcheck::{BigIntProver, BigIntVerifier, bigint_linear_time_sc_sb1, bigint_linear_time_sc_sb_all, bigint_linear_time_sc_vanilla, bigint_linear_time_sc_sb1_with_challenges, bigint_linear_time_sc_sb_all_with_challenges, bigint_linear_time_sc_vanilla_with_challenges};
use sumcheck::sc_prover::Prover;
use sumcheck::protocol::{accumulate_grid, EvalProductSV, LinearTimeSC, SumcheckProtocol};
use sumcheck::sc_verifier::{random_challenges, Verifier};
use sumcheck::streaming::{MockStream, PolynomialStream};

fn fe(x: u64) -> StdFr2 {
    StdFr2::from_u64(x)
}

/// d tables of 2^l small values.
fn tables(d: usize, l: usize, seed: u64) -> Vec<Vec<StdFr2>> {
    (0..d)
        .map(|k| (0..(1u64 << l)).map(|i| fe((i * 31 + (k as u64) * 17 + seed * 7 + 5) % 11)).collect())
        .collect()
}

/// sum over the hypercube of the product of the tables.
fn honest_sum(t: &[Vec<StdFr2>]) -> StdFr2 {
    let n = t[0].len();
    let mut sum = StdFr2::zero();
    for x in 0..n {
        let mut prod = StdFr2::one();
        for row in t {
            prod = prod.mul_bb(&row[x]);
        }
        sum = sum.add(&prod);
    }
    sum
}

#[test]
fn linear_time_accepts_the_true_sum() {
    let t = tables(3, 4, 1);
    let claim = honest_sum(&t);
    assert!(LinearTimeSC::linear_time_sc(&t, 3, claim));
    assert!(LinearTimeSC::linear_time_sc_sb_1(&t, 3, claim));
    let challenges = vec![fe(3), fe(1000), fe(7), fe(42)];
    assert!(LinearTimeSC::linear_time_sc_with_challenges(&t, 3, claim, &challenges));
    assert!(LinearTimeSC::linear_time_sc_sb_1_with_challenges(&t, 3, claim, &challenges));
}

#[test]
fn linear_time_rejects_a_wrong_sum() {
    let t = tables(2, 3, 2);
    let wrong = honest_sum(&t).add(&StdFr2::one());
    let challenges = vec![fe(5), fe(6), fe(7)];
    assert!(!LinearTimeSC::linear_time_sc_with_challenges(&t, 2, wrong, &challenges));
    assert!(!LinearTimeSC::linear_time_sc_sb_1_with_challenges(&t, 2, wrong, &challenges));
    assert!(!LinearTimeSC::linear_time_sc(&t, 2, wrong));
}

#[test]
fn protocols_through_the_stream() {
    let t = tables(2, 6, 3);
    let claim = honest_sum(&t);
    let mut stream = MockStream::new(6, 2, t.clone());
    assert_eq!(stream.num_vars(), 6);
    assert_eq!(stream.degree(), 2);
    assert!(LinearTimeSC.run(&mut stream, claim));
    assert!(LinearTimeSC.run_sb_1(&mut stream, claim));
    let sv = EvalProductSV::new(2, 6);
    assert!(sv.run(&mut stream, claim));
    assert!(!sv.run(&mut stream, claim.add(&StdFr2::one())));
}

#[test]
fn eval_product_sv_online_and_offline() {
    for (d, l) in [(2usize, 6usize), (3, 5), (4, 4)] {
        let t = tables(d, l, d as u64);
        let claim = honest_sum(&t);
        let sv = EvalProductSV::new(d, l);
        let mut stream = MockStream::new(l, d, t.clone());
        let offline = sv.precomputation_phase_sequential(&mut stream);
        assert_eq!(offline.chunk_size, 1 << sv.early_window_size);
        assert!(sv.online_phase(&mut stream, claim, offline));
        let challenges = random_challenges(l);
        assert!(sv.run_with_challenges(&mut stream, claim, &challenges));
    }
}

#[test]
fn early_window_matches_the_rounded_logarithm() {
    for d in 1usize..40 {
        for num_vars in [1usize, 3, 6, 20] {
            let exact = ((d * d) as f64 * 78.0).ln() / ((d + 1) as f64).ln();
            let expected = (exact.round() as usize).clamp(1, num_vars);
            assert_eq!(EvalProductSV::new(d, num_vars).early_window_size, expected, "d = {d}, num_vars = {num_vars}");
        }
    }
    assert_eq!(EvalProductSV::new(1, 10).early_window_size, 6);
    assert_eq!(EvalProductSV::new(3, 0).early_window_size, 0);
}

#[test]
fn bigint_drivers_accept_the_true_sum() {
    let t = tables(3, 4, 4);
    let claim = honest_sum(&t);
    let challenges = vec![fe(11), fe(12), fe(13), fe(14)];
    assert!(bigint_linear_time_sc_vanilla_with_challenges(t.clone(), claim, &challenges));
    assert!(bigint_linear_time_sc_sb1_with_challenges(t.clone(), claim, &challenges));
    assert!(bigint_linear_time_sc_sb_all_with_challenges(t.clone(), claim, &challenges));
    let wrong = claim.add(&StdFr2::one());
    assert!(!bigint_linear_time_sc_vanilla_with_challenges(t.clone(), wrong, &challenges));
    assert!(!bigint_linear_time_sc_sb1_with_challenges(t.clone(), wrong, &challenges));
    assert!(!bigint_linear_time_sc_sb_all_with_challenges(t, wrong, &challenges));
}

#[test]
fn bigint_drivers_on_a_stream() {
    let t = tables(3, 5, 6);
    let claim = honest_sum(&t);
    let mut stream = MockStream::new(5, 3, t.clone());
    assert!(bigint_linear_time_sc_vanilla(&mut stream, claim));
    assert!(bigint_linear_time_sc_sb1(&mut stream, claim));
    assert!(bigint_linear_time_sc_sb_all(&mut stream, claim));
    let wrong = claim.add(&StdFr2::one());
    assert!(!bigint_linear_time_sc_vanilla(&mut stream, wrong));
    assert!(!bigint_linear_time_sc_sb1(&mut stream, wrong));
    assert!(!bigint_linear_time_sc_sb_all(&mut stream, wrong));
}

#[test]
fn bigint_verifier_reconstructs_s0_from_the_slope_alone() {
    // s(X) = 3 X + 5: s(inf) = 3, s(0) = 5, s(1) = 8; the claim is s(0) + s(1) = 13.
    let mut v = BigIntVerifier::new(1);
    v.add_s_i(vec![fe(3)]);
    let s0 = v.compute_s_i_0(fe(13));
    assert!(s0 == fe(5));
    let r = v.send_challenge(fe(10));
    assert!(v.update_c_i(r, s0) == fe(35));
}

#[test]
fn bigint_drivers_with_one_polynomial() {
    let t = tables(1, 4, 8);
    let claim = honest_sum(&t);
    let challenges = vec![fe(21), fe(22), fe(23), fe(24)];
    assert!(bigint_linear_time_sc_vanilla_with_challenges(t.clone(), claim, &challenges));
    assert!(bigint_linear_time_sc_sb1_with_challenges(t.clone(), claim, &challenges));
    assert!(bigint_linear_time_sc_sb_all_with_challenges(t.clone(), claim, &challenges));
    let wrong = claim.add(&StdFr2::one());
    assert!(!bigint_linear_time_sc_vanilla_with_challenges(t.clone(), wrong, &challenges));
    let mut stream = MockStream::new(4, 1, t.clone());
    assert!(bigint_linear_time_sc_vanilla(&mut stream, claim));
    assert!(bigint_linear_time_sc_sb1(&mut stream, claim));
    assert!(bigint_linear_time_sc_sb_all(&mut stream, claim));
}

#[test]
fn verifier_records_and_interpolates() {
    let mut v = Verifier::new(2);
    // s(X) = 3 + 4 X on U_2_hat = {inf, 1}: s(inf) = 0 (no X^2 term), s(1) = 7
    v.add_s_i(vec![fe(0), fe(7)]);
    let s0 = v.compute_s_i_0(fe(10));
    assert!(s0 == fe(3));
    let r = v.send_challenge(fe(5));
    assert!(v.challenges.len() == 1 && r == fe(5));
    assert!(v.update_c_i(r, s0) == fe(23));
}

#[test]
fn grids_add_entrywise() {
    let minus_one = StdFr2::zero().sub(&fe(1));
    let acc = accumulate_grid(vec![fe(1), fe(2), minus_one], &[fe(3), fe(4), fe(2)]);
    assert!(acc == vec![fe(4), fe(6), fe(1)]);
}

#[test]
fn grid_reduction_order_does_not_matter() {
    let minus_one = StdFr2::zero().sub(&fe(1));
    let a = vec![fe(1), minus_one, fe(9)];
    let b = vec![fe(5), fe(7), minus_one];
    let c = vec![minus_one, fe(2), fe(3)];
    assert!(accumulate_grid(a.clone(), &b) == accumulate_grid(b.clone(), &a));
    let left = accumulate_grid(accumulate_grid(a.clone(), &b), &c);
    let right = accumulate_grid(a.clone(), &accumulate_grid(b.clone(), &c));
    assert!(left == right);
    assert!(accumulate_grid(a.clone(), &[StdFr2::zero(); 3]) == a);
    assert!(accumulate_grid(vec![StdFr2::zero(); 3], &a) == a);
}

#[test]
fn random_challenges_are_field_elements() {
    let c = random_challenges(8);
    assert_eq!(c.len(), 8);
    assert!(c.iter().all(|x| StdFr2::try_from_limbs(x.0).is_some()));
}

#[test]
fn small_big_round_messages_match_the_plain_ones() {
    for d in 1usize..5 {
        let t = tables(d, 5, d as u64 + 3);
        let bp = BigIntProver::new(t.clone());
        for n in [1usize, 4, 16] {
            assert!(bp.compute_s_i(n) == bp.compute_s_i_sb(n));
        }
        let p = Prover::new(&t);
        assert!(p.compute_s_0_sb(5) == p.compute_s_i(5, 0));
    }
}
