//! The small-value sum-check prover for a single multilinear polynomial: the first
//! round stays on the raw `u64` evaluations, later rounds fold field elements, and
//! the challenges follow the fixed schedule r_i = i + 2. A replay of the verifier's
//! checks on that schedule decides whether the transcript is accepted.
use crate::arithmetic::small_big_mul_raw;
use crate::ark_field::{fr_add, fr_from_u128, fr_from_u64, fr_mul, fr_sub};
use crate::bigint_field::{fe_add, fe_mul, fe_sub, StdFr2};
use crate::completeness::{lemma_sum_congruent, lemma_sum_even_odd};
use crate::field_math::{lemma_md_add, lemma_md_canonical, lemma_md_idem, lemma_md_mul, lemma_seq_sum_new_step, md, seq_sum};
use crate::poly::lemma_md_sub;
use crate::sumcheck_model::{fold_all, fold_once, fold_prefix, lemma_fold_all_push, lemma_term_value};
use vstd::arithmetic::mul::{lemma_mul_is_commutative, lemma_mul_is_distributive_add, lemma_mul_is_distributive_sub};
use vstd::arithmetic::power2::{lemma_pow2_unfold, pow2};
use vstd::prelude::*;

verus! {

// ================================================================================
// The model.
// ================================================================================

/// The sum of the entries at even positions 0, 2, ..., 2(len/2) - 2.
pub open spec fn even_sum(s: Seq<int>) -> int {
    seq_sum(Seq::new(s.len() / 2, evens(s)))
}

/// The sum of the entries at odd positions 1, 3, ..., 2(len/2) - 1.
pub open spec fn odd_sum(s: Seq<int>) -> int {
    seq_sum(Seq::new(s.len() / 2, odds(s)))
}

/// x |-> s[2x], the table with the current variable at 0.
pub open spec fn evens(s: Seq<int>) -> spec_fn(int) -> int {
    |x: int| s[2 * x]
}

/// x |-> s[2x + 1], the table with the current variable at 1.
pub open spec fn odds(s: Seq<int>) -> spec_fn(int) -> int {
    |x: int| s[2 * x + 1]
}

/// The prover's message of a round: (p(0), p(1)) of the round polynomial, the sums of
/// the table's entries with the current variable at 0 and at 1, reduced.
pub open spec fn pair_message(s: Seq<int>) -> (int, int) {
    (md(even_sum(s)), md(odd_sum(s)))
}

/// The whole transcript: round k's message on the table folded with the first k
/// challenges.
#[verifier::opaque]
pub open spec fn small_value_transcript(s: Seq<int>, rs: Seq<int>) -> Seq<(int, int)> {
    Seq::new(rs.len(), |k: int| pair_message(fold_all(s, rs.take(k))))
}

/// The fixed challenge schedule r_i = i + 2.
pub open spec fn fixed_challenges(n: nat) -> Seq<int> {
    Seq::new(n, |i: int| i + 2)
}

/// The claim that round k's message must add up to: the starting claim in round 0,
/// then the previous message's line p0 + r (p1 - p0) at the previous challenge.
pub open spec fn round_claim(proofs: Seq<(int, int)>, c: int, rs: Seq<int>, k: int) -> int {
    if k == 0 {
        c
    } else {
        md(proofs[k - 1].0 + rs[k - 1] * (proofs[k - 1].1 - proofs[k - 1].0))
    }
}

/// Every round's message adds up to its claim: p0 + p1 = claim, modulo p.
pub open spec fn transcript_checks(proofs: Seq<(int, int)>, c: int, rs: Seq<int>) -> bool {
    forall|k: int| 0 <= k < proofs.len() ==> md(#[trigger] proofs[k].0 + proofs[k].1) == round_claim(proofs, c, rs, k)
}

/// The raw evaluations as integers.
pub open spec fn small_values(s: Seq<u64>) -> Seq<int> {
    s.map_values(|v: u64| v as int)
}

/// sum_i small_i * coeff_i over the first n terms.
pub open spec fn dot_terms(small: Seq<u64>, coeffs: Seq<StdFr2>, n: nat) -> int {
    seq_sum(Seq::new(n, |i: int| small[i] * coeffs[i].value()))
}

// ================================================================================
// The dot product.
// ================================================================================

/// sum_i small_i * coeff_i modulo p: unit coefficients are gathered in a 128-bit
/// accumulator, zero coefficients skipped, and the others multiplied with the
/// small-big product.
pub fn fast_dot_product(small_values: &[u64], coefficients: &[StdFr2]) -> (r: StdFr2)
    requires
        small_values@.len() == coefficients@.len(),
        forall|i: int| 0 <= i < coefficients@.len() ==> (#[trigger] coefficients@[i]).is_canonical(),
    ensures
        r.is_canonical(),
        r.value() == md(dot_terms(small_values@, coefficients@, small_values@.len())),
{
    let one = fr_from_u64(1);
    let zero = fr_from_u64(0);
    let mut final_res = fr_from_u64(0);
    let mut accumulator_u128: u128 = 0;
    let n = small_values.len();
    proof {
        assert(Seq::new(0, |i: int| small_values@[i] * coefficients@[i].value()) =~= Seq::<int>::empty());
        lemma_md_canonical(0);
    }
    for i in 0..n
        invariant
            n == small_values@.len(),
            n == coefficients@.len(),
            one.value() == 1,
            zero.value() == 0,
            forall|j: int| 0 <= j < coefficients@.len() ==> (#[trigger] coefficients@[j]).is_canonical(),
            final_res.is_canonical(),
            accumulator_u128 <= i * 0xffff_ffff_ffff_ffffu64,
            md(final_res.value() + accumulator_u128) == md(dot_terms(small_values@, coefficients@, i as nat)),
    {
        let small = small_values[i];
        let coeff = coefficients[i];
        let ghost prev = dot_terms(small_values@, coefficients@, i as nat);
        proof {
            lemma_seq_sum_new_step(i as nat, |j: int| small_values@[j] * coefficients@[j].value());
            assert(dot_terms(small_values@, coefficients@, (i + 1) as nat) == prev + small * coeff.value());
            assert(i * 0xffff_ffff_ffff_ffffu64 + 0xffff_ffff_ffff_ffffu64 == (i + 1) * 0xffff_ffff_ffff_ffffu64) by (nonlinear_arith);
            assert((i + 1) * 0xffff_ffff_ffff_ffffu64 <= 0xffff_ffff_ffff_ffff_ffff_ffff_ffff_ffffu128) by (nonlinear_arith)
                requires
                    i < n,
                    n <= usize::MAX,
                    usize::MAX <= 0xffff_ffff_ffff_ffffu64,
            ;
            crate::bigint_field::lemma_eq_spec_value(coeff, one);
            crate::bigint_field::lemma_eq_spec_value(coeff, zero);
        }
        if coeff == one {
            accumulator_u128 = accumulator_u128 + small as u128;
            proof {
                assert(coeff.value() == 1);
                vstd::arithmetic::mul::lemma_mul_basics(small as int);
            }
        } else if coeff == zero {
            proof {
                assert(coeff.value() == 0);
                vstd::arithmetic::mul::lemma_mul_basics(small as int);
            }
        } else {
            let ghost before = final_res.value() + accumulator_u128;
            if accumulator_u128 > 0 {
                let acc = fr_from_u128(accumulator_u128);
                proof {
                    crate::field_math::lemma_modulus_pos();
                    assert(accumulator_u128 < crate::bigint_field::modulus()) by {
                        crate::bigint_field::lemma_modulus_val();
                    }
                    lemma_md_canonical(acc.value());
                    crate::field_math::lemma_fe_add_md(final_res.value(), acc.value(), final_res.value() as int, accumulator_u128 as int);
                    lemma_md_idem(before);
                }
                final_res = fr_add(&final_res, &acc);
                accumulator_u128 = 0;
            }
            proof {
                assert(md(final_res.value() as int) == md(before));
            }
            let product = small_big_mul_raw(small, &coeff);
            proof {
                crate::field_math::lemma_fe_mul_md(coeff.value(), small as nat, coeff.value() as int, small as int);
                lemma_mul_is_commutative(coeff.value() as int, small as int);
                crate::field_math::lemma_fe_add_md(final_res.value(), product.value(), before, small * coeff.value());
                lemma_md_add(before, small * coeff.value());
                lemma_md_add(prev, small * coeff.value());
                lemma_md_canonical(fe_add(final_res.value(), product.value()));
            }
            final_res = fr_add(&final_res, &product);
        }
        proof {
            if coeff.value() == 1 || coeff.value() == 0 {
                lemma_md_add(final_res.value() + accumulator_u128 - small * coeff.value(), small * coeff.value());
                lemma_md_add(prev, small * coeff.value());
            }
        }
    }
    if accumulator_u128 > 0 {
        let acc = fr_from_u128(accumulator_u128);
        let ghost before = final_res.value() + accumulator_u128;
        proof {
            crate::bigint_field::lemma_modulus_val();
            lemma_md_canonical(acc.value());
            crate::field_math::lemma_fe_add_md(final_res.value(), acc.value(), final_res.value() as int, accumulator_u128 as int);
        }
        final_res = fr_add(&final_res, &acc);
    } else {
        proof {
            lemma_md_canonical(final_res.value());
        }
    }
    final_res
}

} // verus!

verus! {

// ================================================================================
// Lemmas on one round.
// ================================================================================

/// A sum of lines e + r (o - e) is the line through the sums.
proof fn lemma_sum_line(h: nat, e: spec_fn(int) -> int, o: spec_fn(int) -> int, r: int)
    ensures
        seq_sum(Seq::new(h, |x: int| e(x) + r * (o(x) - e(x)))) == seq_sum(Seq::new(h, e)) + r * (seq_sum(
            Seq::new(h, o),
        ) - seq_sum(Seq::new(h, e))),
    decreases h,
{
    if h == 0 {
        assert(Seq::new(0, |x: int| e(x) + r * (o(x) - e(x))) =~= Seq::<int>::empty());
        assert(Seq::new(0, e) =~= Seq::<int>::empty());
        assert(Seq::new(0, o) =~= Seq::<int>::empty());
        vstd::arithmetic::mul::lemma_mul_basics(r);
    } else {
        let m = (h - 1) as nat;
        lemma_sum_line(m, e, o, r);
        lemma_seq_sum_new_step(m, |x: int| e(x) + r * (o(x) - e(x)));
        lemma_seq_sum_new_step(m, e);
        lemma_seq_sum_new_step(m, o);
        let se = seq_sum(Seq::new(m, e));
        let so = seq_sum(Seq::new(m, o));
        assert(r * ((so + o(m as int)) - (se + e(m as int))) == r * (so - se) + r * (o(m as int) - e(m as int))) by (nonlinear_arith);
    }
}

/// Reducing the two end values first does not change the reduced line.
proof fn lemma_md_line(e: int, o: int, r: int)
    ensures
        md(md(e) + r * (md(o) - md(e))) == md(e + r * (o - e)),
{
    lemma_md_add(md(e), r * (md(o) - md(e)));
    lemma_md_mul(r, md(o) - md(e));
    lemma_md_sub(o, e);
    lemma_md_mul(r, o - e);
    lemma_md_add(e, r * (o - e));
    lemma_md_idem(e);
}

/// A table of 2h entries sums to its even and odd sums, and folding it with r sums,
/// modulo p, to the line through them at r.
pub proof fn lemma_pair_fold(s: Seq<int>, r: int, h: nat)
    requires
        s.len() == 2 * h,
    ensures
        seq_sum(s) == even_sum(s) + odd_sum(s),
        md(seq_sum(fold_once(s, r))) == md(even_sum(s) + r * (odd_sum(s) - even_sum(s))),
{
    assert(s =~= Seq::new(2 * h, |i: int| s[i]));
    lemma_sum_even_odd(h, |i: int| s[i]);
    assert(Seq::new(h, |x: int| (|i: int| s[i])(2 * x)) =~= Seq::new(h, evens(s)));
    assert(Seq::new(h, |x: int| (|i: int| s[i])(2 * x + 1)) =~= Seq::new(h, odds(s)));
    let f = |x: int| md(s[2 * x] + r * (s[2 * x + 1] - s[2 * x]));
    let g = |x: int| evens(s)(x) + r * (odds(s)(x) - evens(s)(x));
    assert(fold_once(s, r) =~= Seq::new(h, f));
    assert forall|j: int| 0 <= j < h implies md(#[trigger] f(j)) == md(g(j)) by {
        lemma_md_idem(s[2 * j] + r * (s[2 * j + 1] - s[2 * j]));
    }
    lemma_sum_congruent(h, f, g);
    lemma_sum_line(h, evens(s), odds(s), r);
}

/// Folding halves the length.
proof fn lemma_fold_all_len_exact(s: Seq<int>, rs: Seq<int>, k: nat)
    requires
        k <= rs.len(),
        s.len() == pow2(rs.len()),
    ensures
        fold_all(s, rs.take(k as int)).len() == pow2((rs.len() - k) as nat),
    decreases k,
{
    if k == 0 {
        assert(rs.take(0) =~= Seq::<int>::empty());
    } else {
        let m = (k - 1) as nat;
        lemma_fold_all_len_exact(s, rs, m);
        assert(rs.take(k as int) =~= rs.take(m as int).push(rs[m as int]));
        lemma_fold_all_push(s, rs.take(m as int), rs[m as int]);
        lemma_pow2_unfold((rs.len() - m) as nat);
    }
}

/// Completeness of the transcript: on a table of 2^n entries, with the true sum as
/// the claim, every round's message adds up to its claim, whatever the challenges.
pub proof fn lemma_small_value_complete(s: Seq<int>, rs: Seq<int>)
    requires
        s.len() == pow2(rs.len()),
    ensures
        transcript_checks(small_value_transcript(s, rs), md(seq_sum(s)), rs),
{
    reveal(small_value_transcript);
    let pv = small_value_transcript(s, rs);
    let c = md(seq_sum(s));
    assert forall|k: int| 0 <= k < pv.len() implies md(#[trigger] pv[k].0 + pv[k].1) == round_claim(pv, c, rs, k) by {
        let t = fold_all(s, rs.take(k));
        lemma_fold_all_len_exact(s, rs, k as nat);
        lemma_pow2_unfold((rs.len() - k) as nat);
        let h = pow2((rs.len() - k - 1) as nat);
        lemma_pair_fold(t, 0, h);
        lemma_md_add(even_sum(t), odd_sum(t));
        if k == 0 {
            assert(rs.take(0) =~= Seq::<int>::empty());
        } else {
            let tp = fold_all(s, rs.take(k - 1));
            let r = rs[k - 1];
            lemma_fold_all_len_exact(s, rs, (k - 1) as nat);
            lemma_pow2_unfold((rs.len() - k + 1) as nat);
            assert(rs.take(k) =~= rs.take(k - 1).push(r));
            lemma_fold_all_push(s, rs.take(k - 1), r);
            lemma_pair_fold(tp, r, pow2((rs.len() - k) as nat));
            lemma_md_line(even_sum(tp), odd_sum(tp), r);
        }
    }
}

} // verus!

verus! {

// ================================================================================
// The prover and the replayed verifier.
// ================================================================================

/// The values of a transcript of field-element pairs.
pub open spec fn pairs_values(p: Seq<(StdFr2, StdFr2)>) -> Seq<(int, int)> {
    p.map_values(|e: (StdFr2, StdFr2)| (e.0.value() as int, e.1.value() as int))
}

/// p0 + r (p1 - p0) in the field.
fn line_at(p0: &StdFr2, p1: &StdFr2, r: &StdFr2) -> (v: StdFr2)
    requires
        p0.is_canonical(),
        p1.is_canonical(),
        r.is_canonical(),
    ensures
        v.is_canonical(),
        v.value() == md(p0.value() + r.value() * (p1.value() - p0.value())),
{
    let delta = fr_sub(p1, p0);
    let scaled = fr_mul(r, &delta);
    proof {
        lemma_mul_is_commutative(r.value() as int, delta.value() as int);
        lemma_term_value(p0.value(), p1.value(), delta.value(), r.value(), scaled.value(), fe_add(scaled.value(), p0.value()));
        lemma_mul_is_commutative(r.value() as int, p1.value() - p0.value());
    }
    fr_add(p0, &scaled)
}

/// A `u64` is a canonical field element.
proof fn lemma_u64_canonical(x: u64)
    ensures
        x < crate::bigint_field::modulus(),
{
    crate::bigint_field::lemma_modulus_val();
    crate::limbs::lemma_weight_small();
}

/// The small-value prover on one multilinear polynomial given by its 2^n raw
/// evaluations: returns the claimed sum and, for each round, the round polynomial's
/// values (p(0), p(1)). Round 0 works on the raw `u64` values; the challenges are
/// r_i = i + 2.
pub fn sc_protocol_improved(num_vars: usize, small_evals: &[u64]) -> (r: (StdFr2, Vec<(StdFr2, StdFr2)>))
    requires
        1 <= num_vars,
        num_vars + 2 <= usize::MAX,
    ensures
        r.0.is_canonical(),
        r.0.value() == md(seq_sum(small_values(small_evals@))),
        r.1@.len() == num_vars,
        forall|k: int| 0 <= k < num_vars ==> (#[trigger] r.1@[k]).0.is_canonical() && r.1@[k].1.is_canonical(),
        pairs_values(r.1@) == small_value_transcript(small_values(small_evals@), fixed_challenges(num_vars as nat)),
{
    let ghost sv = small_values(small_evals@);
    let ghost rs = fixed_challenges(num_vars as nat);
    proof {
        reveal(small_value_transcript);
    }
    let mut proofs: Vec<(StdFr2, StdFr2)> = Vec::new();
    let n = small_evals.len();
    let mut total_sum_u128: u128 = 0;
    proof {
        assert(sv.take(0) =~= Seq::<int>::empty());
    }
    for i in 0..n
        invariant
            n == small_evals@.len(),
            sv == small_values(small_evals@),
            total_sum_u128 <= i * 0xffff_ffff_ffff_ffffu64,
            total_sum_u128 == seq_sum(sv.take(i as int)),
    {
        proof {
            assert(sv.take(i + 1).drop_last() =~= sv.take(i as int));
            assert((i + 1) * 0xffff_ffff_ffff_ffffu64 <= 0xffff_ffff_ffff_ffff_ffff_ffff_ffff_ffffu128) by (nonlinear_arith)
                requires
                    i < n,
                    n <= usize::MAX,
                    usize::MAX <= 0xffff_ffff_ffff_ffffu64,
            ;
            assert(i * 0xffff_ffff_ffff_ffffu64 + 0xffff_ffff_ffff_ffffu64 == (i + 1) * 0xffff_ffff_ffff_ffffu64) by (nonlinear_arith);
        }
        total_sum_u128 = total_sum_u128 + small_evals[i] as u128;
    }
    proof {
        assert(sv.take(n as int) =~= sv);
        crate::bigint_field::lemma_modulus_val();
        lemma_md_canonical(total_sum_u128 as nat);
    }
    let claimed_sum = fr_from_u128(total_sum_u128);
    let mut challenges: Vec<StdFr2> = Vec::new();
    for i in 0..num_vars
        invariant
            num_vars + 2 <= usize::MAX,
            rs == fixed_challenges(num_vars as nat),
            challenges@.len() == i,
            forall|j: int| 0 <= j < i ==> (#[trigger] challenges@[j]).is_canonical() && challenges@[j].value() == rs[j],
    {
        challenges.push(fr_from_u64((i + 2) as u64));
    }
    // Round 0, on the raw values.
    let half = n / 2;
    let mut p0_small: Vec<u64> = Vec::new();
    let mut p1_small: Vec<u64> = Vec::new();
    for i in 0..half
        invariant
            half == n / 2,
            n == small_evals@.len(),
            p0_small@.len() == i,
            p1_small@.len() == i,
            forall|j: int| 0 <= j < i ==> #[trigger] p0_small@[j] == small_evals@[2 * j],
            forall|j: int| 0 <= j < i ==> #[trigger] p1_small@[j] == small_evals@[2 * j + 1],
    {
        p0_small.push(small_evals[i * 2]);
        p1_small.push(small_evals[i * 2 + 1]);
    }
    let coeffs = vec![fr_from_u64(1); half];
    let p0_r0 = fast_dot_product(p0_small.as_slice(), coeffs.as_slice());
    let p1_r0 = fast_dot_product(p1_small.as_slice(), coeffs.as_slice());
    proof {
        assert(rs.take(0) =~= Seq::<int>::empty());
        assert forall|j: int| 0 <= j < half implies #[trigger] p0_small@[j] * coeffs@[j].value() == evens(sv)(j) by {
            vstd::arithmetic::mul::lemma_mul_basics(p0_small@[j] as int);
        }
        assert forall|j: int| 0 <= j < half implies #[trigger] p1_small@[j] * coeffs@[j].value() == odds(sv)(j) by {
            vstd::arithmetic::mul::lemma_mul_basics(p1_small@[j] as int);
        }
        assert(Seq::new(half as nat, |i: int| p0_small@[i] * coeffs@[i].value()) =~= Seq::new(sv.len() / 2, evens(sv)));
        assert(Seq::new(half as nat, |i: int| p1_small@[i] * coeffs@[i].value()) =~= Seq::new(sv.len() / 2, odds(sv)));
    }
    proofs.push((p0_r0, p1_r0));
    let r0 = challenges[0];
    let mut current_fr_evals: Vec<StdFr2> = Vec::new();
    for i in 0..half
        invariant
            half == n / 2,
            n == small_evals@.len(),
            sv == small_values(small_evals@),
            p0_small@.len() == half,
            p1_small@.len() == half,
            forall|j: int| 0 <= j < half ==> #[trigger] p0_small@[j] == small_evals@[2 * j],
            forall|j: int| 0 <= j < half ==> #[trigger] p1_small@[j] == small_evals@[2 * j + 1],
            r0.is_canonical(),
            current_fr_evals@.len() == i,
            forall|j: int| 0 <= j < i ==> (#[trigger] current_fr_evals@[j]).is_canonical(),
            forall|j: int| 0 <= j < i ==> (#[trigger] current_fr_evals@[j]).value() == fold_once(sv, r0.value() as int)[j],
    {
        let p0_fr = fr_from_u64(p0_small[i]);
        let p1_fr = fr_from_u64(p1_small[i]);
        proof {
            lemma_u64_canonical(p0_small@[i as int]);
            lemma_u64_canonical(p1_small@[i as int]);
        }
        let next_val = line_at(&p0_fr, &p1_fr, &r0);
        current_fr_evals.push(next_val);
    }
    proof {
        assert(rs.take(1) =~= seq![rs[0]]);
        assert(rs.take(1).drop_first() =~= Seq::<int>::empty());
        assert(rs.take(1)[0] == rs[0]);
        assert(fold_all(fold_once(sv, rs[0]), rs.take(1).drop_first()) == fold_once(sv, rs[0]));
        assert(crate::sumcheck_model::table_values(current_fr_evals@) =~= fold_all(sv, rs.take(1)));
        assert(pairs_values(proofs@) =~= small_value_transcript(sv, rs).take(1));
    }
    // Rounds 1 to n - 1, on field elements.
    let mut current_size = half;
    for round in 1..num_vars
        invariant
            num_vars + 2 <= usize::MAX,
            rs == fixed_challenges(num_vars as nat),
            sv == small_values(small_evals@),
            challenges@.len() == num_vars,
            forall|j: int| 0 <= j < num_vars ==> (#[trigger] challenges@[j]).is_canonical() && challenges@[j].value() == rs[j],
            current_size == current_fr_evals@.len(),
            forall|j: int| 0 <= j < current_size ==> (#[trigger] current_fr_evals@[j]).is_canonical(),
            crate::sumcheck_model::table_values(current_fr_evals@) == fold_all(sv, rs.take(round as int)),
            proofs@.len() == round,
            forall|k: int| 0 <= k < round ==> (#[trigger] proofs@[k]).0.is_canonical() && proofs@[k].1.is_canonical(),
            pairs_values(proofs@) == small_value_transcript(sv, rs).take(round as int),
    {
        let ghost cur = fold_all(sv, rs.take(round as int));
        let next_half = current_size / 2;
        let mut p0_fr_vec: Vec<StdFr2> = Vec::new();
        let mut p1_fr_vec: Vec<StdFr2> = Vec::new();
        for i in 0..next_half
            invariant
                next_half == current_size / 2,
                current_size == current_fr_evals@.len(),
                p0_fr_vec@.len() == i,
                p1_fr_vec@.len() == i,
                forall|j: int| 0 <= j < i ==> #[trigger] p0_fr_vec@[j] == current_fr_evals@[2 * j],
                forall|j: int| 0 <= j < i ==> #[trigger] p1_fr_vec@[j] == current_fr_evals@[2 * j + 1],
        {
            p0_fr_vec.push(current_fr_evals[i * 2]);
            p1_fr_vec.push(current_fr_evals[i * 2 + 1]);
        }
        let mut p0 = fr_from_u64(0);
        let mut p1 = fr_from_u64(0);
        proof {
            lemma_md_canonical(0);
            assert(Seq::new(0, evens(cur)) =~= Seq::<int>::empty());
            assert(Seq::new(0, odds(cur)) =~= Seq::<int>::empty());
        }
        for i in 0..next_half
            invariant
                next_half == current_size / 2,
                current_size == current_fr_evals@.len(),
                cur == crate::sumcheck_model::table_values(current_fr_evals@),
                forall|j: int| 0 <= j < current_size ==> (#[trigger] current_fr_evals@[j]).is_canonical(),
                p0_fr_vec@.len() == next_half,
                p1_fr_vec@.len() == next_half,
                forall|j: int| 0 <= j < next_half ==> #[trigger] p0_fr_vec@[j] == current_fr_evals@[2 * j],
                forall|j: int| 0 <= j < next_half ==> #[trigger] p1_fr_vec@[j] == current_fr_evals@[2 * j + 1],
                p0.is_canonical(),
                p1.is_canonical(),
                p0.value() == md(seq_sum(Seq::new(i as nat, evens(cur)))),
                p1.value() == md(seq_sum(Seq::new(i as nat, odds(cur)))),
        {
            proof {
                lemma_seq_sum_new_step(i as nat, evens(cur));
                lemma_seq_sum_new_step(i as nat, odds(cur));
                let a = p0_fr_vec@[i as int];
                let b = p1_fr_vec@[i as int];
                lemma_md_canonical(a.value());
                lemma_md_canonical(b.value());
                crate::field_math::lemma_fe_add_md(p0.value(), a.value(), seq_sum(Seq::new(i as nat, evens(cur))), a.value() as int);
                crate::field_math::lemma_fe_add_md(p1.value(), b.value(), seq_sum(Seq::new(i as nat, odds(cur))), b.value() as int);
            }
            p0 = fr_add(&p0, &p0_fr_vec[i]);
            p1 = fr_add(&p1, &p1_fr_vec[i]);
        }
        proofs.push((p0, p1));
        let r = challenges[round];
        let mut next_fr_evals: Vec<StdFr2> = Vec::new();
        for i in 0..next_half
            invariant
                next_half == current_size / 2,
                current_size == current_fr_evals@.len(),
                cur == crate::sumcheck_model::table_values(current_fr_evals@),
                forall|j: int| 0 <= j < current_size ==> (#[trigger] current_fr_evals@[j]).is_canonical(),
                p0_fr_vec@.len() == next_half,
                p1_fr_vec@.len() == next_half,
                forall|j: int| 0 <= j < next_half ==> #[trigger] p0_fr_vec@[j] == current_fr_evals@[2 * j],
                forall|j: int| 0 <= j < next_half ==> #[trigger] p1_fr_vec@[j] == current_fr_evals@[2 * j + 1],
                r.is_canonical(),
                next_fr_evals@.len() == i,
                forall|j: int| 0 <= j < i ==> (#[trigger] next_fr_evals@[j]).is_canonical(),
                forall|j: int| 0 <= j < i ==> (#[trigger] next_fr_evals@[j]).value() == fold_once(cur, r.value() as int)[j],
        {
            let next_val = line_at(&p0_fr_vec[i], &p1_fr_vec[i], &r);
            next_fr_evals.push(next_val);
        }
        proof {
            assert(rs.take(round + 1) =~= rs.take(round as int).push(rs[round as int]));
            lemma_fold_all_push(sv, rs.take(round as int), rs[round as int]);
            assert(crate::sumcheck_model::table_values(next_fr_evals@) =~= fold_all(sv, rs.take(round + 1)));
            reveal(small_value_transcript);
            assert(pairs_values(proofs@) =~= small_value_transcript(sv, rs).take(round + 1));
        }
        current_fr_evals = next_fr_evals;
        current_size = next_half;
    }
    proof {
        assert(small_value_transcript(sv, rs).take(num_vars as int) =~= small_value_transcript(sv, rs));
    }
    (claimed_sum, proofs)
}

/// Runs the small-value prover and replays the verifier on its transcript with the
/// same challenges: the claimed sum must be `expected_sum`, and each round's
/// p(0) + p(1) the claim, which then becomes p(0) + r (p(1) - p(0)).
pub fn run_sc_protocol_improved_checked(num_vars: usize, small_evals: &[u64], expected_sum: StdFr2) -> (accepted: bool)
    requires
        1 <= num_vars,
        num_vars + 2 <= usize::MAX,
        expected_sum.is_canonical(),
    ensures
        accepted == (md(seq_sum(small_values(small_evals@))) == expected_sum.value() && transcript_checks(
            small_value_transcript(small_values(small_evals@), fixed_challenges(num_vars as nat)),
            md(seq_sum(small_values(small_evals@))),
            fixed_challenges(num_vars as nat),
        )),
        small_evals@.len() == pow2(num_vars as nat) && expected_sum.value() == md(seq_sum(small_values(small_evals@)))
            ==> accepted,
{
    let ghost sv = small_values(small_evals@);
    let ghost rs = fixed_challenges(num_vars as nat);
    let (claimed_sum, proofs) = sc_protocol_improved(num_vars, small_evals);
    let ghost pv = pairs_values(proofs@);
    let ghost c = md(seq_sum(sv));
    proof {
        crate::bigint_field::lemma_eq_spec_value(claimed_sum, expected_sum);
        if small_evals@.len() == pow2(num_vars as nat) {
            lemma_small_value_complete(sv, rs);
        }
    }
    if claimed_sum != expected_sum {
        return false;
    }
    let mut current_claim = claimed_sum;
    for round in 0..proofs.len()
        invariant
            num_vars + 2 <= usize::MAX,
            proofs@.len() == num_vars,
            rs == fixed_challenges(num_vars as nat),
            pv == pairs_values(proofs@),
            pv == small_value_transcript(sv, rs),
            sv == small_values(small_evals@),
            c == md(seq_sum(sv)),
            small_evals@.len() == pow2(num_vars as nat) ==> transcript_checks(pv, c, rs),
            forall|k: int| 0 <= k < num_vars ==> (#[trigger] proofs@[k]).0.is_canonical() && proofs@[k].1.is_canonical(),
            current_claim.is_canonical(),
            current_claim.value() == round_claim(pv, c, rs, round as int),
            forall|k: int| 0 <= k < round ==> md(#[trigger] pv[k].0 + pv[k].1) == round_claim(pv, c, rs, k),
    {
        let (p0, p1) = proofs[round];
        let sum = fr_add(&p0, &p1);
        proof {
            crate::bigint_field::lemma_eq_spec_value(sum, current_claim);
            assert(pv[round as int] == (p0.value() as int, p1.value() as int));
        }
        if sum != current_claim {
            proof {
                lemma_md_canonical(p0.value());
                lemma_md_canonical(p1.value());
                crate::field_math::lemma_fe_add_md(p0.value(), p1.value(), p0.value() as int, p1.value() as int);
                assert(md(pv[round as int].0 + pv[round as int].1) != round_claim(pv, c, rs, round as int));
            }
            return false;
        }
        let r = fr_from_u64((round + 2) as u64);
        current_claim = line_at(&p0, &p1, &r);
    }
    true
}

} // verus!
