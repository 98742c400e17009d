//! The linear-time sum-check protocol on arkworks' `Fr`: the prover and verifier
//! interleaved over the rounds, the challenges of each round drawn by the caller.
use crate::bigint_field::{fe_sub, StdFr2};
use crate::completeness::{lemma_claim_after_inv, lemma_honest_claim_accepted, table_sum};
use crate::field_math::{lemma_fe_sub_md, lemma_md_range, md};
use crate::poly::{denominators_invertible, fermat_holds};
use crate::sc_prover::{next_size, Prover};
use crate::sc_verifier::{elems_canonical, random_challenges, Verifier};
use crate::engine::{cell_fold, compute_lagrange_denominator_invs, denominator_inverse, dynamic_folding_step, fold_hypercube_chunk, get_u_hat_domain, kernel_cache_wf, multi_product_eval, precompute_kernel_cache, product_grid, u_hat_domain, EvaluationPoint};
use crate::streaming::{tables_wf, PolynomialStream};
use crate::ark_field::fr_add;
use crate::field_math::{lemma_fe_add_md, lemma_md_canonical, lemma_seq_sum_new_step, seq_prod, seq_sum};
use crate::soundness::avoids_nodes;
use crate::sumcheck_model::{
    claim_after_inv,
    field_point,
    lemma_field_point_of,
    verdict_inv,
    elems_values,
    fold_tables,
    interpolate_inv,
    mle_eval,
    oracle_value,
    polys_values,
    round_message,
    table_values,
    tables_min_len,
    tables_values,
};
use vstd::arithmetic::power::pow;
use vstd::arithmetic::power2::{lemma_pow2_unfold, pow2};
use vstd::prelude::*;

verus! {

/// The polynomials are given by tables of 2^n canonical evaluations each.
pub open spec fn polys_wf(list_of_poly: Seq<Vec<StdFr2>>, n: nat) -> bool {
    &&& forall|k: int| 0 <= k < list_of_poly.len() ==> (#[trigger] list_of_poly[k])@.len() == pow2(n)
    &&& forall|k: int| 0 <= k < list_of_poly.len() ==> elems_canonical(#[trigger] list_of_poly[k]@)
}

/// A sum-check protocol run on the d multilinear polynomials of a stream, with the
/// verifier's challenges (one per variable) drawn by the caller.
pub trait SumcheckProtocol {
    /// The protocol handles d polynomials in l variables.
    spec fn supports(&self, d: nat, l: nat) -> bool;

    /// Proves and checks the claim that the product of the polynomials sums to
    /// `sumcheck_claim` over the hypercube; returns the verifier's verdict.
    fn run_with_challenges<S: PolynomialStream>(&self, stream: &mut S, sumcheck_claim: StdFr2, challenges: &[StdFr2]) -> (accepted: bool)
        requires
            tables_wf(old(stream).tables(), old(stream).vars()),
            self.supports(old(stream).tables().len(), old(stream).vars()),
            challenges@.len() == old(stream).vars(),
            elems_canonical(challenges@),
            sumcheck_claim.is_canonical(),
        ensures
            final(stream).tables() == old(stream).tables(),
            final(stream).vars() == old(stream).vars(),
    ;

    /// The same, with the first round's message computed by small-big multiplication.
    fn run_sb_1_with_challenges<S: PolynomialStream>(&self, stream: &mut S, sumcheck_claim: StdFr2, challenges: &[StdFr2]) -> (accepted: bool)
        requires
            tables_wf(old(stream).tables(), old(stream).vars()),
            self.supports(old(stream).tables().len(), old(stream).vars()),
            1 <= old(stream).vars(),
            challenges@.len() == old(stream).vars(),
            elems_canonical(challenges@),
            sumcheck_claim.is_canonical(),
        ensures
            final(stream).tables() == old(stream).tables(),
            final(stream).vars() == old(stream).vars(),
    ;

    /// `run_with_challenges` with the verifier's challenges drawn uniformly from the
    /// field.
    fn run<S: PolynomialStream>(&self, stream: &mut S, sumcheck_claim: StdFr2) -> (accepted: bool)
        requires
            tables_wf(old(stream).tables(), old(stream).vars()),
            self.supports(old(stream).tables().len(), old(stream).vars()),
            sumcheck_claim.is_canonical(),
        ensures
            final(stream).tables() == old(stream).tables(),
            final(stream).vars() == old(stream).vars(),
    ;

    /// `run_sb_1_with_challenges` with the verifier's challenges drawn uniformly from
    /// the field.
    fn run_sb_1<S: PolynomialStream>(&self, stream: &mut S, sumcheck_claim: StdFr2) -> (accepted: bool)
        requires
            tables_wf(old(stream).tables(), old(stream).vars()),
            self.supports(old(stream).tables().len(), old(stream).vars()),
            1 <= old(stream).vars(),
            sumcheck_claim.is_canonical(),
        ensures
            final(stream).tables() == old(stream).tables(),
            final(stream).vars() == old(stream).vars(),
    ;
}

/// The linear-time sum-check (LinearTime_SC).
pub struct LinearTimeSC;

/// One round of the loop shared by the drivers: the message has been sent and
/// recorded, the challenge is about to be used. The claim after it stays the claim
/// of the run.
proof fn lemma_round_step(
    tv: Seq<Seq<int>>,
    c: StdFr2,
    msg: Seq<StdFr2>,
    s0: StdFr2,
    rs: Seq<int>,
    m: nat,
)
    requires
        1 <= m,
        rs.len() == m,
        tv.len() >= 2,
        elems_values(msg) == round_message(tv, pow2(m) / 2),
        elems_canonical(msg),
        msg.len() >= 2,
        c.is_canonical(),
        s0.value() == fe_sub(c.value(), msg[1].value()),
    ensures
        pow2(m) / 2 == pow2((m - 1) as nat),
        claim_after_inv(tv, c.value() as int, rs) == claim_after_inv(
            fold_tables(tv, rs[0], pow2((m - 1) as nat)),
            crate::sumcheck_model::interpolate_inv(elems_values(msg), s0.value() as int, rs[0], tv.len()),
            rs.drop_first(),
        ),
{
    lemma_pow2_unfold(m);
    lemma_fe_sub_md(c.value(), msg[1].value());
    assert(elems_values(msg)[1] == msg[1].value());
}

/// The number of variables n of a table of 2^n entries.
fn table_num_vars(len: usize) -> (n: usize)
    requires
        exists|m: nat| m < usize::BITS && len == #[trigger] pow2(m),
    ensures
        n < usize::BITS,
        len == pow2(n as nat),
{
    let ghost m = choose|m: nat| m < usize::BITS && len == #[trigger] pow2(m);
    let mut n: usize = 0;
    proof {
        vstd::arithmetic::power2::lemma_pow2_pos(0);
        assert(pow2(0) == 1) by {
            vstd::arithmetic::power2::lemma2_to64();
        }
        if m > 0 {
            vstd::arithmetic::power2::lemma_pow2_strictly_increases(0, m);
        }
    }
    while (1usize << n) < len
        invariant
            m < usize::BITS,
            len == pow2(m),
            n <= m,
        decreases m - n,
    {
        proof {
            vstd::bits::lemma_usize_pow2_no_overflow(n as nat);
            vstd::bits::lemma_usize_shl_is_mul(1, n);
            if n >= m {
                if n > m {
                    vstd::arithmetic::power2::lemma_pow2_strictly_increases(m, n as nat);
                }
            }
        }
        n = n + 1;
    }
    proof {
        vstd::bits::lemma_usize_pow2_no_overflow(n as nat);
        vstd::bits::lemma_usize_shl_is_mul(1, n);
        if n < m {
            vstd::arithmetic::power2::lemma_pow2_strictly_increases(n as nat, m);
        }
    }
    n
}

impl LinearTimeSC {
    /// Runs the protocol on the evaluation tables (of 2^n entries each) of `num_poly`
    /// multilinear polynomials, with the verifier's challenges drawn uniformly from the
    /// field; returns the verdict. The true sum over the hypercube is always accepted.
    pub fn linear_time_sc(list_of_poly: &[Vec<StdFr2>], num_poly: usize, sumcheck_claim: StdFr2) -> (accepted: bool)
        requires
            list_of_poly@.len() == num_poly,
            num_poly >= 2,
            denominators_invertible(num_poly as nat),
            exists|n: nat| n < usize::BITS && #[trigger] polys_wf(list_of_poly@, n),
            sumcheck_claim.is_canonical(),
        ensures
            exists|rs: Seq<int>|
                field_point(rs) && pow2(rs.len()) == list_of_poly@[0]@.len() && accepted == #[trigger] verdict_inv(
                    polys_values(list_of_poly@),
                    sumcheck_claim.value() as int,
                    rs,
                ),
            fermat_holds() && sumcheck_claim.value() == md(table_sum(polys_values(list_of_poly@), list_of_poly@[0]@.len()))
                ==> accepted,
            fermat_holds() && sumcheck_claim.value() != md(table_sum(polys_values(list_of_poly@), list_of_poly@[0]@.len()))
                && accepted ==> exists|rs: Seq<int>|
                #![trigger verdict_inv(polys_values(list_of_poly@), sumcheck_claim.value() as int, rs)]
                field_point(rs) && pow2(rs.len()) == list_of_poly@[0]@.len() && verdict_inv(
                    polys_values(list_of_poly@),
                    sumcheck_claim.value() as int,
                    rs,
                ) && !avoids_nodes(rs, num_poly as nat),
    {
        let ghost m = choose|n: nat| n < usize::BITS && #[trigger] polys_wf(list_of_poly@, n);
        proof {
            assert(list_of_poly@[0]@.len() == pow2(m));
        }
        let num_vars = table_num_vars(list_of_poly[0].len());
        let challenges = random_challenges(num_vars);
        let accepted = Self::linear_time_sc_with_challenges(list_of_poly, num_poly, sumcheck_claim, challenges.as_slice());
        proof {
            lemma_field_point_of(challenges@);
            assert(accepted == verdict_inv(polys_values(list_of_poly@), sumcheck_claim.value() as int, elems_values(challenges@)));
        }
        accepted
    }

    /// `linear_time_sc_sb_1_with_challenges` with the verifier's challenges drawn
    /// uniformly from the field. The true sum over the hypercube is always accepted.
    pub fn linear_time_sc_sb_1(list_of_poly: &[Vec<StdFr2>], num_poly: usize, sumcheck_claim: StdFr2) -> (accepted: bool)
        requires
            list_of_poly@.len() == num_poly,
            num_poly >= 2,
            denominators_invertible(num_poly as nat),
            exists|n: nat| 1 <= n < usize::BITS && #[trigger] polys_wf(list_of_poly@, n),
            sumcheck_claim.is_canonical(),
        ensures
            exists|rs: Seq<int>|
                field_point(rs) && pow2(rs.len()) == list_of_poly@[0]@.len() && accepted == #[trigger] verdict_inv(
                    polys_values(list_of_poly@),
                    sumcheck_claim.value() as int,
                    rs,
                ),
            fermat_holds() && sumcheck_claim.value() == md(table_sum(polys_values(list_of_poly@), list_of_poly@[0]@.len()))
                ==> accepted,
            fermat_holds() && sumcheck_claim.value() != md(table_sum(polys_values(list_of_poly@), list_of_poly@[0]@.len()))
                && accepted ==> exists|rs: Seq<int>|
                #![trigger verdict_inv(polys_values(list_of_poly@), sumcheck_claim.value() as int, rs)]
                field_point(rs) && pow2(rs.len()) == list_of_poly@[0]@.len() && verdict_inv(
                    polys_values(list_of_poly@),
                    sumcheck_claim.value() as int,
                    rs,
                ) && !avoids_nodes(rs, num_poly as nat),
    {
        let ghost m = choose|n: nat| 1 <= n < usize::BITS && #[trigger] polys_wf(list_of_poly@, n);
        proof {
            assert(list_of_poly@[0]@.len() == pow2(m));
        }
        let num_vars = table_num_vars(list_of_poly[0].len());
        proof {
            if num_vars == 0 {
                vstd::arithmetic::power2::lemma_pow2_strictly_increases(0, m);
            }
        }
        let challenges = random_challenges(num_vars);
        let accepted = Self::linear_time_sc_sb_1_with_challenges(list_of_poly, num_poly, sumcheck_claim, challenges.as_slice());
        proof {
            lemma_field_point_of(challenges@);
            assert(accepted == verdict_inv(polys_values(list_of_poly@), sumcheck_claim.value() as int, elems_values(challenges@)));
        }
        accepted
    }

    /// Runs the protocol on the evaluation tables of `num_poly` multilinear polynomials,
    /// one challenge per variable, and returns the verifier's verdict.
    pub fn linear_time_sc_with_challenges(
        list_of_poly: &[Vec<StdFr2>],
        num_poly: usize,
        sumcheck_claim: StdFr2,
        challenges: &[StdFr2],
    ) -> (accepted: bool)
        requires
            list_of_poly@.len() == num_poly,
            num_poly >= 2,
            denominators_invertible(num_poly as nat),
            challenges@.len() < usize::BITS,
            polys_wf(list_of_poly@, challenges@.len()),
            elems_canonical(challenges@),
            sumcheck_claim.is_canonical(),
        ensures
            accepted == (oracle_value(polys_values(list_of_poly@), elems_values(challenges@)) == claim_after_inv(
                polys_values(list_of_poly@),
                sumcheck_claim.value() as int,
                elems_values(challenges@),
            )),
            fermat_holds() && sumcheck_claim.value() == md(table_sum(polys_values(list_of_poly@), pow2(challenges@.len())))
                ==> accepted,
            fermat_holds() && sumcheck_claim.value() != md(table_sum(polys_values(list_of_poly@), pow2(challenges@.len())))
                && avoids_nodes(elems_values(challenges@), num_poly as nat) ==> !accepted,
    {
        let num_vars = challenges.len();
        let ghost t0 = polys_values(list_of_poly@);
        let ghost rs = elems_values(challenges@);
        let mut prover = Prover::new(list_of_poly);
        let mut verifier = Verifier::new(num_poly);
        let mut c_i = sumcheck_claim;
        proof {
            assert(rs.skip(0) =~= rs);
            assert(tables_values(prover.tables()) =~= t0);
            assert(challenges@.take(0) =~= verifier.challenges@);
        }
        for i in 0..num_vars
            invariant
                num_vars == challenges@.len(),
                num_vars < usize::BITS,
                rs == elems_values(challenges@),
                elems_canonical(challenges@),
                num_poly >= 2,
                denominators_invertible(num_poly as nat),
                prover.wf(),
                prover.d == num_poly,
                verifier.d == num_poly,
                verifier.challenges@ == challenges@.take(i as int),
                tables_min_len(prover.tables(), pow2((num_vars - i) as nat)),
                c_i.is_canonical(),
                claim_after_inv(tables_values(prover.tables()), c_i.value() as int, rs.skip(i as int))
                    == claim_after_inv(t0, sumcheck_claim.value() as int, rs),
        {
            let s_i = prover.compute_s_i(num_vars, i);
            let ghost tv = tables_values(prover.tables());
            let ghost msg = s_i@;
            verifier.add_s_i(s_i);
            let s_i_0 = verifier.compute_s_i_0(c_i);
            let challenge = verifier.send_challenge(challenges[i]);
            proof {
                let m = (num_vars - i) as nat;
                let rest = rs.skip(i as int);
                assert(elems_values(msg) =~= round_message(tv, next_size(num_vars as nat, i as nat)));
                lemma_round_step(tv, c_i, msg, s_i_0, rest, m);
                assert(rest[0] == challenge.value());
                assert(rest.drop_first() =~= rs.skip(i + 1));
                assert(challenges@.take(i + 1) =~= challenges@.take(i as int).push(challenges@[i as int]));
            }
            c_i = verifier.update_c_i(challenge, s_i_0);
            let ghost before = tables_values(prover.tables());
            prover.update_p_arrays(num_vars, i, challenge);
            proof {
                assert(tables_values(prover.tables()) =~= fold_tables(
                    before,
                    challenge.value() as int,
                    pow2((num_vars - i - 1) as nat),
                ));
                assert forall|k: int| 0 <= k < prover.tables().len() implies (#[trigger] prover.tables()[k]).len()
                    >= pow2((num_vars - (i + 1)) as nat) by {
                    assert(table_values(prover.tables()[k]).len() == prover.tables()[k].len());
                }
            }
        }
        proof {
            assert(verifier.challenges@ =~= challenges@);
            assert(rs.skip(num_vars as int).len() == 0);
            assert(Seq::new(list_of_poly@.len(), |k: int| mle_eval(table_values(list_of_poly@[k]@), rs)) =~= Seq::new(
                t0.len(),
                |k: int| mle_eval(t0[k], rs),
            ));
        }
        let accepted = verifier.final_check(list_of_poly, c_i);
        proof {
            lemma_honest_run(list_of_poly@, sumcheck_claim, rs);
            lemma_field_point_of(challenges@);
            assert forall|k: int| 0 <= k < t0.len() implies (#[trigger] t0[k]).len() == pow2(rs.len()) by {
                assert(t0[k] == table_values(list_of_poly@[k]@));
            }
            crate::soundness::lemma_sound_verdict(t0, sumcheck_claim.value() as int, rs);
        }
        accepted
    }
    /// The same protocol with the first round's message computed by the small-big
    /// multiplication (`compute_s_0_sb`).
    pub fn linear_time_sc_sb_1_with_challenges(
        list_of_poly: &[Vec<StdFr2>],
        num_poly: usize,
        sumcheck_claim: StdFr2,
        challenges: &[StdFr2],
    ) -> (accepted: bool)
        requires
            list_of_poly@.len() == num_poly,
            num_poly >= 2,
            denominators_invertible(num_poly as nat),
            1 <= challenges@.len() < usize::BITS,
            polys_wf(list_of_poly@, challenges@.len()),
            elems_canonical(challenges@),
            sumcheck_claim.is_canonical(),
        ensures
            accepted == (oracle_value(polys_values(list_of_poly@), elems_values(challenges@)) == claim_after_inv(
                polys_values(list_of_poly@),
                sumcheck_claim.value() as int,
                elems_values(challenges@),
            )),
            fermat_holds() && sumcheck_claim.value() == md(table_sum(polys_values(list_of_poly@), pow2(challenges@.len())))
                ==> accepted,
            fermat_holds() && sumcheck_claim.value() != md(table_sum(polys_values(list_of_poly@), pow2(challenges@.len())))
                && avoids_nodes(elems_values(challenges@), num_poly as nat) ==> !accepted,
    {
        let num_vars = challenges.len();
        let ghost t0 = polys_values(list_of_poly@);
        let ghost rs = elems_values(challenges@);
        let mut prover = Prover::new(list_of_poly);
        let mut verifier = Verifier::new(num_poly);
        let mut c_i = sumcheck_claim;
        proof {
            assert(rs.skip(0) =~= rs);
            assert(tables_values(prover.tables()) =~= t0);
            assert(challenges@.take(0) =~= verifier.challenges@);
        }
        let s_0 = prover.compute_s_0_sb(num_vars);
        let ghost tv0 = tables_values(prover.tables());
        let ghost msg0 = s_0@;
        verifier.add_s_i(s_0);
        let s_0_0 = verifier.compute_s_i_0(c_i);
        let challenge = verifier.send_challenge(challenges[0]);
        proof {
            let m = num_vars as nat;
            assert(elems_values(msg0) =~= round_message(tv0, next_size(num_vars as nat, 0)));
            lemma_round_step(tv0, c_i, msg0, s_0_0, rs, m);
            assert(rs[0] == challenge.value());
            assert(rs.drop_first() =~= rs.skip(1));
            assert(challenges@.take(1) =~= challenges@.take(0).push(challenges@[0]));
        }
        c_i = verifier.update_c_i(challenge, s_0_0);
        let ghost before0 = tables_values(prover.tables());
        prover.update_p_arrays(num_vars, 0, challenge);
        proof {
            assert(tables_values(prover.tables()) =~= fold_tables(
                before0,
                challenge.value() as int,
                pow2((num_vars - 1) as nat),
            ));
            assert forall|k: int| 0 <= k < prover.tables().len() implies (#[trigger] prover.tables()[k]).len()
                >= pow2((num_vars - 1) as nat) by {
                assert(table_values(prover.tables()[k]).len() == prover.tables()[k].len());
            }
        }
        for i in 1..num_vars
            invariant
                1 <= i <= num_vars,
                num_vars == challenges@.len(),
                num_vars < usize::BITS,
                rs == elems_values(challenges@),
                elems_canonical(challenges@),
                num_poly >= 2,
                denominators_invertible(num_poly as nat),
                prover.wf(),
                prover.d == num_poly,
                verifier.d == num_poly,
                verifier.challenges@ == challenges@.take(i as int),
                tables_min_len(prover.tables(), pow2((num_vars - i) as nat)),
                c_i.is_canonical(),
                claim_after_inv(tables_values(prover.tables()), c_i.value() as int, rs.skip(i as int))
                    == claim_after_inv(t0, sumcheck_claim.value() as int, rs),
        {
            let s_i = prover.compute_s_i(num_vars, i);
            let ghost tv = tables_values(prover.tables());
            let ghost msg = s_i@;
            verifier.add_s_i(s_i);
            let s_i_0 = verifier.compute_s_i_0(c_i);
            let challenge = verifier.send_challenge(challenges[i]);
            proof {
                let m = (num_vars - i) as nat;
                let rest = rs.skip(i as int);
                assert(elems_values(msg) =~= round_message(tv, next_size(num_vars as nat, i as nat)));
                lemma_round_step(tv, c_i, msg, s_i_0, rest, m);
                assert(rest[0] == challenge.value());
                assert(rest.drop_first() =~= rs.skip(i + 1));
                assert(challenges@.take(i + 1) =~= challenges@.take(i as int).push(challenges@[i as int]));
            }
            c_i = verifier.update_c_i(challenge, s_i_0);
            let ghost before = tables_values(prover.tables());
            prover.update_p_arrays(num_vars, i, challenge);
            proof {
                assert(tables_values(prover.tables()) =~= fold_tables(
                    before,
                    challenge.value() as int,
                    pow2((num_vars - i - 1) as nat),
                ));
                assert forall|k: int| 0 <= k < prover.tables().len() implies (#[trigger] prover.tables()[k]).len()
                    >= pow2((num_vars - (i + 1)) as nat) by {
                    assert(table_values(prover.tables()[k]).len() == prover.tables()[k].len());
                }
            }
        }
        proof {
            assert(verifier.challenges@ =~= challenges@);
            assert(rs.skip(num_vars as int).len() == 0);
            assert(Seq::new(list_of_poly@.len(), |k: int| mle_eval(table_values(list_of_poly@[k]@), rs)) =~= Seq::new(
                t0.len(),
                |k: int| mle_eval(t0[k], rs),
            ));
        }
        let accepted = verifier.final_check(list_of_poly, c_i);
        proof {
            lemma_honest_run(list_of_poly@, sumcheck_claim, rs);
            lemma_field_point_of(challenges@);
            assert forall|k: int| 0 <= k < t0.len() implies (#[trigger] t0[k]).len() == pow2(rs.len()) by {
                assert(t0[k] == table_values(list_of_poly@[k]@));
            }
            crate::soundness::lemma_sound_verdict(t0, sumcheck_claim.value() as int, rs);
        }
        accepted
    }
}

/// The arkworks verifier accepts an honest claim (Fermat's little theorem assumed).
proof fn lemma_honest_run(list_of_poly: Seq<Vec<StdFr2>>, sumcheck_claim: StdFr2, rs: Seq<int>)
    requires
        list_of_poly.len() >= 2,
        list_of_poly.len() <= usize::MAX,
        polys_wf(list_of_poly, rs.len()),
    ensures
        fermat_holds() && sumcheck_claim.value() == md(table_sum(polys_values(list_of_poly), pow2(rs.len())))
            ==> claim_after_inv(polys_values(list_of_poly), sumcheck_claim.value() as int, rs) == oracle_value(
            polys_values(list_of_poly),
            rs,
        ),
{
    let tv = polys_values(list_of_poly);
    if fermat_holds() && sumcheck_claim.value() == md(table_sum(tv, pow2(rs.len()))) {
        assert forall|k: int| 0 <= k < tv.len() implies (#[trigger] tv[k]).len() == pow2(rs.len()) by {
            assert(tv[k] == table_values(list_of_poly[k]@));
        }
        lemma_honest_claim_accepted(tv, rs);
        lemma_claim_after_inv(tv, sumcheck_claim.value() as int, rs);
    }
}

// ================================================================================
// The small-value sum-check (EvalProductSV).
// ================================================================================

/// The small-value (SV) optimized sum-check: the first `early_window_size` rounds are
/// answered from a grid precomputed offline, the others as in the linear-time
/// protocol.
pub struct EvalProductSV {
    pub early_window_size: usize,
}

/// The offline data, independent of the verifier's challenges: the grid q and the
/// size of the chunks it was accumulated from.
pub struct OfflinePrecomputation {
    pub q_grid: Vec<StdFr2>,
    pub chunk_size: usize,
}

/// (78 d^2)^2 = 6084 d^4.
pub open spec fn window_target(d: nat) -> int {
    (6084 * (d * d * d * d)) as int
}

/// w is ln(78 d^2) / ln(d + 1) rounded to the nearest integer:
/// (d + 1)^(2w - 1) <= (78 d^2)^2 < (d + 1)^(2w + 1).
pub open spec fn rounds_window(d: nat, w: nat) -> bool {
    &&& pow((d + 1) as int, (2 * w - 1) as nat) <= window_target(d)
    &&& window_target(d) < pow((d + 1) as int, (2 * w + 1) as nat)
}

/// The first few powers, multiplied out.
proof fn lemma_pow_small(e: int)
    ensures
        pow(e, 1) == e,
        pow(e, 3) == e * e * e,
        pow(e, 5) == e * e * e * e * e,
{
    reveal(pow);
    assert(pow(e, 0) == 1);
    assert(pow(e, 1) == e * pow(e, 0));
    assert(pow(e, 2) == e * pow(e, 1));
    assert(pow(e, 3) == e * pow(e, 2));
    assert(pow(e, 4) == e * pow(e, 3));
    assert(pow(e, 5) == e * pow(e, 4));
    assert(e * (e * e) == e * e * e) by (nonlinear_arith);
    assert(e * (e * e * e) == e * e * e * e) by (nonlinear_arith);
    assert(e * (e * e * e * e) == e * e * e * e * e) by (nonlinear_arith);
}

/// (d + 1)^(e + 2) = (d + 1)^e (d + 1)^2.
proof fn lemma_pow_step2(b: int, e: nat)
    ensures
        pow(b, e + 2) == pow(b, e) * (b * b),
{
    vstd::arithmetic::power::lemma_pow_adds(b, e, 2);
    reveal(pow);
    assert(pow(b, 0) == 1);
    assert(pow(b, 1) == b * pow(b, 0));
    assert(pow(b, 2) == b * pow(b, 1));
}

/// For d >= 6080 the rounded window is 2.
proof fn lemma_large_degree_window(d: nat)
    requires
        d >= 6080,
    ensures
        rounds_window(d, 2),
{
    let e = (d + 1) as int;
    lemma_pow_small(e);
    let di = d as int;
    assert(e * e * e <= 6084 * (di * di * di * di)) by (nonlinear_arith)
        requires
            e == di + 1,
            di >= 1,
    ;
    assert(e * e * e * e * e > 6084 * (di * di * di * di)) by (nonlinear_arith)
        requires
            e == di + 1,
            di >= 6080,
    ;
}

impl EvalProductSV {
    /// The early window omega_1 = round(ln(78 d^2) / ln(d + 1)), kept within 1..=num_vars.
    pub fn new(d: usize, num_vars: usize) -> (r: Self)
        ensures
            num_vars == 0 ==> r.early_window_size == 0,
            num_vars >= 1 && d == 0 ==> r.early_window_size == 1,
            num_vars >= 1 && d >= 1 ==> 1 <= r.early_window_size <= num_vars && (if r.early_window_size == num_vars {
                pow((d + 1) as int, (2 * num_vars - 1) as nat) <= window_target(d as nat)
            } else {
                rounds_window(d as nat, r.early_window_size as nat)
            }),
    {
        if num_vars == 0 {
            return EvalProductSV { early_window_size: 0 };
        }
        if d == 0 {
            return EvalProductSV { early_window_size: 1 };
        }
        let mut omega_1: usize;
        if d >= 6080 {
            proof {
                lemma_large_degree_window(d as nat);
            }
            omega_1 = 2;
            if omega_1 > num_vars {
                omega_1 = num_vars;
                proof {
                    lemma_pow_small((d + 1) as int);
                    assert(d + 1 <= window_target(d as nat)) by (nonlinear_arith)
                        requires
                            d >= 1,
                    ;
                }
            }
        } else {
            let dd = d as u128;
            proof {
                assert(dd * dd <= 6079 * 6079) by (nonlinear_arith)
                    requires
                        dd <= 6079,
                ;
                assert(dd * dd * dd <= 6079 * 6079 * 6079) by (nonlinear_arith)
                    requires
                        dd <= 6079,
                ;
                assert(dd * dd * dd * dd <= 6079 * 6079 * 6079 * 6079) by (nonlinear_arith)
                    requires
                        dd <= 6079,
                ;
                assert((dd + 1) * (dd + 1) <= 6080 * 6080) by (nonlinear_arith)
                    requires
                        dd <= 6079,
                ;
            }
            let target = 6084 * (dd * dd * dd * dd);
            let step = (dd + 1) * (dd + 1);
            let mut power = dd + 1;
            omega_1 = 1;
            proof {
                lemma_pow_small((d + 1) as int);
                assert(d + 1 <= window_target(d as nat)) by (nonlinear_arith)
                    requires
                        d >= 1,
                ;
                assert(power * step <= 0x8000_0000_0000_0000 * (6080 * 6080)) by (nonlinear_arith)
                    requires
                        power <= 0x8000_0000_0000_0000,
                        step <= 6080 * 6080,
                ;
            }
            while omega_1 < num_vars && power * step <= target
                invariant
                    1 <= omega_1 <= num_vars,
                    1 <= d < 6080,
                    dd == d,
                    target == window_target(d as nat),
                    target < 0x8000_0000_0000_0000,
                    step == (d + 1) * (d + 1),
                    step <= 6080 * 6080,
                    power == pow((d + 1) as int, (2 * omega_1 - 1) as nat),
                    power <= target,
                    power * step <= 0x8000_0000_0000_0000 * (6080 * 6080),
                decreases num_vars - omega_1,
            {
                proof {
                    lemma_pow_step2((d + 1) as int, (2 * omega_1 - 1) as nat);
                    assert(power * step * step <= 0x8000_0000_0000_0000 * (6080 * 6080)) by (nonlinear_arith)
                        requires
                            power * step <= 0x8000_0000_0000_0000,
                            step <= 6080 * 6080,
                    ;
                }
                power = power * step;
                omega_1 = omega_1 + 1;
            }
            proof {
                if omega_1 < num_vars {
                    lemma_pow_step2((d + 1) as int, (2 * omega_1 - 1) as nat);
                }
            }
        }
        EvalProductSV { early_window_size: omega_1 }
    }
}

/// The tables restricted to chunk c of `size` consecutive points.
pub open spec fn chunk_tables(tv: Seq<Seq<int>>, c: int, size: nat) -> Seq<Seq<int>> {
    Seq::new(tv.len(), |k: int| tv[k].subrange(c * size, (c + 1) * size))
}

/// Entry i of the product grids of the chunks, indexed by chunk.
pub open spec fn chunk_grid_entries(tv: Seq<Seq<int>>, d: nat, w: nat, i: int) -> spec_fn(int) -> int {
    |c: int| product_grid(chunk_tables(tv, c, pow2(w)), d, w)[i]
}

/// The offline grid: the sum over the first n chunks of 2^w points of the product
/// grids over U_d^w, reduced.
pub open spec fn offline_grid(tv: Seq<Seq<int>>, d: nat, w: nat, n: nat) -> Seq<int> {
    Seq::new(pow((d + 1) as int, w) as nat, |i: int| md(seq_sum(Seq::new(n, chunk_grid_entries(tv, d, w, i)))))
}

impl EvalProductSV {
    /// Phase 1, offline and on one thread: the product grid of every chunk of 2^w
    /// points over U_d^w (w the early window), summed.
    pub fn precomputation_phase_sequential<S: PolynomialStream>(&self, stream: &mut S) -> (offline: OfflinePrecomputation)
        requires
            crate::streaming::tables_wf(old(stream).tables(), old(stream).vars()),
            old(stream).tables().len() >= 1,
            old(stream).tables().len() + 1 < usize::MAX,
            crate::poly::denominators_invertible(old(stream).tables().len()),
            self.early_window_size <= old(stream).vars() < usize::BITS,
            pow((old(stream).tables().len() + 1) as int, self.early_window_size as nat) <= usize::MAX,
        ensures
            *final(stream) == *old(stream),
            offline.chunk_size == pow2(self.early_window_size as nat),
            offline.q_grid@.len() == pow((old(stream).tables().len() + 1) as int, self.early_window_size as nat),
            elems_canonical(offline.q_grid@),
            forall|i: int| 0 <= i < offline.q_grid@.len() ==> (#[trigger] offline.q_grid@[i]).value() == offline_grid(
                tables_values(old(stream).tables()),
                old(stream).tables().len(),
                self.early_window_size as nat,
                pow2((old(stream).vars() - self.early_window_size) as nat),
            )[i],
    {
        let d = stream.degree();
        let early_window_size = self.early_window_size;
        let l = stream.num_vars();
        let ghost tv = tables_values(stream.tables());
        let ghost w = early_window_size as nat;
        proof {
            vstd::bits::lemma_usize_pow2_no_overflow(w);
            vstd::bits::lemma_usize_shl_is_mul(1, early_window_size);
            vstd::bits::lemma_usize_pow2_no_overflow(l as nat);
            vstd::bits::lemma_usize_shl_is_mul(1, l);
            vstd::arithmetic::power2::lemma_pow2_adds(w, (l - w) as nat);
            vstd::arithmetic::power2::lemma_pow2_pos(w);
            assert(early_window_size <= u32::MAX);
        }
        let grid_size = usize::pow(d + 1, early_window_size as u32);
        let chunk_size = 1usize << early_window_size;
        let total_size = 1usize << l;
        let num_chunks = total_size / chunk_size;
        proof {
            vstd::arithmetic::div_mod::lemma_div_multiples_vanish(pow2((l - w) as nat) as int, chunk_size as int);
            vstd::arithmetic::mul::lemma_mul_is_commutative(pow2(w) as int, pow2((l - w) as nat) as int);
        }
        let kernel_cache = precompute_kernel_cache(d);
        let mut q = vec![StdFr2::zero(); grid_size];
        proof {
            lemma_md_canonical(0);
            assert forall|i: int| 0 <= i < grid_size implies (#[trigger] q@[i]).value() == offline_grid(tv, d as nat, w, 0)[i] by {
                assert(Seq::new(0, chunk_grid_entries(tv, d as nat, w, i)) =~= Seq::<int>::empty());
            }
        }
        for chunk_idx in 0..num_chunks
            invariant
                crate::streaming::tables_wf(stream.tables(), stream.vars()),
                d == stream.tables().len(),
                d >= 1,
                d + 1 < usize::MAX,
                l == stream.vars(),
                tv == tables_values(stream.tables()),
                w == early_window_size,
                w <= l < usize::BITS,
                chunk_size == pow2(w),
                num_chunks * chunk_size == pow2(l as nat),
                grid_size == pow((d + 1) as int, w),
                grid_size <= usize::MAX,
                kernel_cache_wf(kernel_cache@, d as nat),
                q@.len() == grid_size,
                elems_canonical(q@),
                forall|i: int| 0 <= i < grid_size ==> (#[trigger] q@[i]).value() == offline_grid(tv, d as nat, w, chunk_idx as nat)[i],
        {
            proof {
                assert((chunk_idx + 1) * chunk_size <= num_chunks * chunk_size) by (nonlinear_arith)
                    requires
                        chunk_idx < num_chunks,
                        chunk_size >= 0,
                ;
                assert((chunk_idx + 1) * chunk_size == chunk_idx * chunk_size + chunk_size) by (nonlinear_arith);
                assert(0 <= chunk_idx * chunk_size) by (nonlinear_arith)
                    requires
                        chunk_idx >= 0,
                        chunk_size >= 0,
                ;
            }
            let chunk = stream.chunk_at(chunk_idx, chunk_size);
            let ghost ct = chunk_tables(tv, chunk_idx as int, pow2(w));
            proof {
                assert forall|k: int| 0 <= k < d implies #[trigger] polys_values(chunk@)[k] =~= ct[k] by {
                    assert(stream.tables()[k].len() == pow2(l as nat));
                    assert(chunk@[k]@ == stream.tables()[k].subrange(chunk_idx * chunk_size, (chunk_idx + 1) * chunk_size));
                    assert(tv[k] == table_values(stream.tables()[k]));
                }
                assert(polys_values(chunk@) =~= ct);
                assert forall|k: int| 0 <= k < d implies (#[trigger] chunk@[k])@.len() == pow2(w) by {
                    assert(stream.tables()[k].len() == pow2(l as nat));
                }
                assert forall|k: int| 0 <= k < d implies elems_canonical(#[trigger] chunk@[k]@) by {
                    assert(elems_canonical(stream.tables()[k]));
                }
                assert forall|kk: int| 1 <= kk < d implies kk < kernel_cache@.len() && (#[trigger] kernel_cache@[kk] matches Some(
                    kd,
                ) && kd.is_kernel_for(kk as nat)) by {}
            }
            let partial = multi_product_eval(chunk.as_slice(), d, early_window_size, kernel_cache.as_slice());
            for i in 0..grid_size
                invariant
                    grid_size == pow((d + 1) as int, w),
                    ct == chunk_tables(tv, chunk_idx as int, pow2(w)),
                    partial@.len() == grid_size,
                    elems_canonical(partial@),
                    forall|ii: int| 0 <= ii < grid_size ==> (#[trigger] partial@[ii]).value() == product_grid(ct, d as nat, w)[ii],
                    q@.len() == grid_size,
                    elems_canonical(q@),
                    forall|ii: int| 0 <= ii < i ==> (#[trigger] q@[ii]).value() == offline_grid(tv, d as nat, w, (chunk_idx + 1) as nat)[ii],
                    forall|ii: int| i <= ii < grid_size ==> (#[trigger] q@[ii]).value() == offline_grid(tv, d as nat, w, chunk_idx as nat)[ii],
            {
                let sum = fr_add(&q[i], &partial[i]);
                proof {
                    let f = chunk_grid_entries(tv, d as nat, w, i as int);
                    lemma_seq_sum_new_step(chunk_idx as nat, f);
                    lemma_md_canonical(partial@[i as int].value());
                    lemma_fe_add_md(q@[i as int].value(), partial@[i as int].value(), seq_sum(Seq::new(chunk_idx as nat, f)), f(chunk_idx as int));
                }
                q.set(i, sum);
            }
        }
        proof {
            assert(num_chunks == pow2((l - w) as nat)) by (nonlinear_arith)
                requires
                    num_chunks * chunk_size == pow2(w) * pow2((l - w) as nat),
                    chunk_size == pow2(w),
                    chunk_size > 0,
            ;
        }
        OfflinePrecomputation { q_grid: q, chunk_size }
    }
}

// ================================================================================
// The online phase: the window rounds answered from the grid.
// ================================================================================

/// Bit j of x.
pub open spec fn bit(x: int, j: nat) -> int {
    (x / pow2(j) as int) % 2
}

/// The grid offset of point x of the remaining hypercube (of `rem` coordinates):
/// coordinate j (bit j) selects the value at 0 or at 1, grid digit 1 or 2, at stride
/// base^(j+1).
pub open spec fn future_offset(x: int, rem: nat, base: nat) -> int
    decreases rem,
{
    if rem == 0 {
        0
    } else {
        future_offset(x, (rem - 1) as nat, base) + (bit(x, (rem - 1) as nat) + 1) * pow(base as int, rem)
    }
}

/// The grid digit of entry u of U_d_hat = (inf, 1, ..., d-1): 0 for inf, v + 1 for v.
pub open spec fn point_digit(u: int) -> int {
    if u == 0 {
        0
    } else {
        u + 1
    }
}

/// The grid values of U_d_hat entry u along the remaining hypercube.
pub open spec fn grid_column(q: Seq<int>, u: int, base: nat, rem: nat) -> spec_fn(int) -> int {
    |x: int| q[point_digit(u) + future_offset(x, rem, base)]
}

/// A window round's message read from the grid: for each entry u of U_d_hat, the sum
/// over the remaining hypercube, reduced.
pub open spec fn grid_message(q: Seq<int>, d: nat, rem: nat) -> Seq<int> {
    Seq::new(d, |u: int| md(seq_sum(Seq::new(pow2(rem), grid_column(q, u, d + 1, rem)))))
}

/// The inverses of the denominators, as integers.
pub open spec fn dinv_values(d: nat) -> Seq<int> {
    Seq::new(d, |i: int| denominator_inverse(i, d) as int)
}

/// The grid folded with the challenge r: base^rem cells.
pub open spec fn fold_grid(q: Seq<int>, r: int, d: nat, rem: nat) -> Seq<int> {
    Seq::new(pow((d + 1) as int, rem) as nat, |f: int| cell_fold(q, f, d + 1, d, r, dinv_values(d)))
}

/// The claim after `rounds` window rounds answered from the grid q, starting from c,
/// with the challenges rs (first first).
pub open spec fn window_claim(q: Seq<int>, c: int, rs: Seq<int>, d: nat, rounds: nat) -> int
    decreases rounds,
{
    if rounds == 0 {
        c
    } else {
        let rem = (rounds - 1) as nat;
        let msg = grid_message(q, d, rem);
        let c1 = interpolate_inv(msg, md(c - msg[1]), rs[0], d);
        let q1 = if rem > 0 {
            fold_grid(q, rs[0], d, rem)
        } else {
            q
        };
        window_claim(q1, c1, rs.drop_first(), d, rem)
    }
}

/// The verdict of the small-value protocol with challenges rs: the window's rounds read
/// from the grid q, then the linear-time rounds on the tables folded with the window's
/// challenges, then the oracle check.
pub open spec fn window_verdict(tv: Seq<Seq<int>>, q: Seq<int>, c: int, rs: Seq<int>, w: nat, nc: nat) -> bool {
    oracle_value(tv, rs) == claim_after_inv(folded_window(tv, rs, w, nc), window_claim(q, c, rs, tv.len(), w), rs.skip(w as int))
}

/// Every table folded with the window's w challenges: chunk e of 2^w points becomes its
/// multilinear extension at (r_1, ..., r_w).
pub open spec fn folded_window(tv: Seq<Seq<int>>, rs: Seq<int>, w: nat, n_chunks: nat) -> Seq<Seq<int>> {
    Seq::new(
        tv.len(),
        |k: int| Seq::new(n_chunks, |e: int| mle_eval(tv[k].subrange(e * pow2(w), (e + 1) * pow2(w)), rs.take(w as int))),
    )
}

/// The grid offset stays below the grid.
proof fn lemma_future_offset_bound(x: int, rem: nat, base: nat)
    requires
        base >= 3,
    ensures
        0 <= future_offset(x, rem, base) <= pow(base as int, rem + 1) - base,
    decreases rem,
{
    vstd::arithmetic::power::lemma_pow1(base as int);
    if rem > 0 {
        lemma_future_offset_bound(x, (rem - 1) as nat, base);
        let p = pow(base as int, rem);
        vstd::arithmetic::power::lemma_pow_positive(base as int, rem);
        vstd::arithmetic::power::lemma_pow_adds(base as int, rem, 1);
        vstd::arithmetic::div_mod::lemma_mod_bound(x / pow2((rem - 1) as nat) as int, 2);
        let b = bit(x, (rem - 1) as nat);
        assert(0 <= b < 2);
        assert((b + 1) * p <= 2 * p) by (nonlinear_arith)
            requires
                0 <= b < 2,
                p > 0,
        ;
        assert(0 <= (b + 1) * p) by (nonlinear_arith)
            requires
                0 <= b,
                p > 0,
        ;
        assert(p * base >= 3 * p) by (nonlinear_arith)
            requires
                base >= 3,
                p > 0,
        ;
    }
}

/// The offset of hypercube point x in the grid, computed bit by bit.
fn grid_offset(x_prime: usize, remaining_vars: usize, base: usize) -> (offset: usize)
    requires
        base >= 3,
        remaining_vars < usize::BITS,
        pow(base as int, (remaining_vars + 1) as nat) <= usize::MAX,
    ensures
        offset == future_offset(x_prime as int, remaining_vars as nat, base as nat),
{
    let mut future_offset: usize = 0;
    for var_j in 0..remaining_vars
        invariant
            base >= 3,
            remaining_vars < usize::BITS,
            pow(base as int, (remaining_vars + 1) as nat) <= usize::MAX,
            future_offset == crate::protocol::future_offset(x_prime as int, var_j as nat, base as nat),
    {
        proof {
            lemma_future_offset_bound(x_prime as int, (var_j + 1) as nat, base as nat);
            vstd::arithmetic::power::lemma_pow_increases(base as nat, (var_j + 2) as nat, (remaining_vars + 1) as nat);
            vstd::arithmetic::power::lemma_pow_increases(base as nat, (var_j + 1) as nat, (remaining_vars + 1) as nat);
            vstd::bits::lemma_usize_shr_is_div(x_prime, var_j);
        }
        let shifted = x_prime >> var_j;
        let bit = shifted & 1;
        proof {
            assert(shifted & 1 == shifted % 2) by (bit_vector);
        }
        let grid_val_idx: usize = if bit == 0 {
            1
        } else {
            2
        };
        let stride = usize::pow(base, (var_j + 1) as u32);
        future_offset = future_offset + grid_val_idx * stride;
    }
    future_offset
}

/// A window round's message read from the grid q over U_d^(rem+1).
fn grid_round_message(q: &Vec<StdFr2>, d: usize, remaining_vars: usize) -> (s_i: Vec<StdFr2>)
    requires
        2 <= d,
        d + 1 <= usize::MAX,
        remaining_vars < usize::BITS,
        q@.len() == pow((d + 1) as int, (remaining_vars + 1) as nat),
        q@.len() <= usize::MAX,
        elems_canonical(q@),
    ensures
        s_i@.len() == d,
        elems_canonical(s_i@),
        forall|u: int| 0 <= u < d ==> (#[trigger] s_i@[u]).value() == grid_message(elems_values(q@), d as nat, remaining_vars as nat)[u],
{
    let base = d + 1;
    let ghost qv = elems_values(q@);
    let ghost rem = remaining_vars as nat;
    let u_d_hat = get_u_hat_domain(d);
    let mut s_i_evals = vec![StdFr2::zero(); d];
    proof {
        vstd::bits::lemma_usize_pow2_no_overflow(rem);
        vstd::bits::lemma_usize_shl_is_mul(1, remaining_vars);
        lemma_md_canonical(0);
    }
    let next_hypercube_size = 1usize << remaining_vars;
    for u_idx in 0..d
        invariant
            base == d + 1,
            2 <= d,
            remaining_vars < usize::BITS,
            rem == remaining_vars,
            next_hypercube_size == pow2(rem),
            u_d_hat@ == u_hat_domain(d as nat),
            q@.len() == pow(base as int, rem + 1),
            q@.len() <= usize::MAX,
            qv == elems_values(q@),
            elems_canonical(q@),
            s_i_evals@.len() == d,
            elems_canonical(s_i_evals@),
            forall|u: int| 0 <= u < u_idx ==> (#[trigger] s_i_evals@[u]).value() == grid_message(qv, d as nat, rem)[u],
    {
        let u = u_d_hat[u_idx];
        let current_var_idx: usize = match u {
            EvaluationPoint::Infinity => 0,
            EvaluationPoint::Value(v) => (v + 1) as usize,
        };
        proof {
            assert(current_var_idx == point_digit(u_idx as int));
        }
        let mut sum_over_hypercube = StdFr2::zero();
        proof {
            assert(Seq::new(0, grid_column(qv, u_idx as int, base as nat, rem)) =~= Seq::<int>::empty());
            assert(seq_sum(Seq::<int>::empty()) == 0);
            lemma_md_canonical(0);
            assert(sum_over_hypercube.value() == md(seq_sum(Seq::new(0, grid_column(qv, u_idx as int, base as nat, rem)))));
        }
        for x_prime in 0..next_hypercube_size
            invariant
                base == d + 1,
                2 <= d,
                u_idx < d,
                remaining_vars < usize::BITS,
                rem == remaining_vars,
                current_var_idx == point_digit(u_idx as int),
                q@.len() == pow(base as int, rem + 1),
                q@.len() <= usize::MAX,
                qv == elems_values(q@),
                elems_canonical(q@),
                sum_over_hypercube.is_canonical(),
                sum_over_hypercube.value() == md(seq_sum(Seq::new(x_prime as nat, grid_column(qv, u_idx as int, base as nat, rem)))),
        {
            let future_offset = grid_offset(x_prime, remaining_vars, base);
            proof {
                lemma_future_offset_bound(x_prime as int, rem, base as nat);
            }
            let final_grid_index = current_var_idx + future_offset;
            let term = q[final_grid_index];
            proof {
                let col = grid_column(qv, u_idx as int, base as nat, rem);
                lemma_seq_sum_new_step(x_prime as nat, col);
                lemma_md_canonical(term.value());
                lemma_fe_add_md(sum_over_hypercube.value(), term.value(), seq_sum(Seq::new(x_prime as nat, col)), col(x_prime as int));
            }
            sum_over_hypercube = fr_add(&sum_over_hypercube, &term);
        }
        s_i_evals.set(u_idx, sum_over_hypercube);
    }
    s_i_evals
}

impl EvalProductSV {
    /// Phase 2, online, with the verifier's challenges drawn uniformly from the field
    /// (see `online_phase_with_challenges`).
    pub fn online_phase<S: PolynomialStream>(
        &self,
        stream: &mut S,
        sumcheck_claim: StdFr2,
        offline: OfflinePrecomputation,
    ) -> (accepted: bool)
        requires
            tables_wf(old(stream).tables(), old(stream).vars()),
            old(stream).tables().len() >= 2,
            old(stream).tables().len() + 1 < usize::MAX,
            denominators_invertible(old(stream).tables().len()),
            self.early_window_size <= old(stream).vars(),
            old(stream).vars() + 1 < usize::BITS,
            sumcheck_claim.is_canonical(),
            offline.chunk_size == pow2(self.early_window_size as nat),
            offline.q_grid@.len() == pow((old(stream).tables().len() + 1) as int, self.early_window_size as nat),
            elems_canonical(offline.q_grid@),
        ensures
            final(stream).tables() == old(stream).tables(),
            final(stream).vars() == old(stream).vars(),
            fermat_holds() && sumcheck_claim.value() == md(table_sum(tables_values(old(stream).tables()), pow2(old(stream).vars())))
                && elems_values(offline.q_grid@) == offline_grid(
                tables_values(old(stream).tables()),
                old(stream).tables().len(),
                self.early_window_size as nat,
                pow2((old(stream).vars() - self.early_window_size) as nat),
            ) ==> accepted,
            exists|rs: Seq<int>|
                field_point(rs) && rs.len() == old(stream).vars() && accepted == #[trigger] window_verdict(
                    tables_values(old(stream).tables()),
                    elems_values(offline.q_grid@),
                    sumcheck_claim.value() as int,
                    rs,
                    self.early_window_size as nat,
                    pow2((old(stream).vars() - self.early_window_size) as nat),
                ),
            fermat_holds() && sumcheck_claim.value() != md(table_sum(tables_values(old(stream).tables()), pow2(old(stream).vars())))
                && elems_values(offline.q_grid@) == offline_grid(
                tables_values(old(stream).tables()),
                old(stream).tables().len(),
                self.early_window_size as nat,
                pow2((old(stream).vars() - self.early_window_size) as nat),
            ) && accepted ==> exists|rs: Seq<int>|
                #![trigger window_verdict(
                    tables_values(old(stream).tables()),
                    elems_values(offline.q_grid@),
                    sumcheck_claim.value() as int,
                    rs,
                    self.early_window_size as nat,
                    pow2((old(stream).vars() - self.early_window_size) as nat),
                )]
                field_point(rs) && rs.len() == old(stream).vars() && window_verdict(
                    tables_values(old(stream).tables()),
                    elems_values(offline.q_grid@),
                    sumcheck_claim.value() as int,
                    rs,
                    self.early_window_size as nat,
                    pow2((old(stream).vars() - self.early_window_size) as nat),
                ) && !avoids_nodes(rs, old(stream).tables().len()),
    {
        let ghost tv = tables_values(stream.tables());
        let ghost q0 = elems_values(offline.q_grid@);
        let challenges = random_challenges(stream.num_vars());
        let accepted = self.online_phase_with_challenges(stream, sumcheck_claim, offline, challenges.as_slice());
        proof {
            lemma_field_point_of(challenges@);
            assert(accepted == window_verdict(
                tv,
                q0,
                sumcheck_claim.value() as int,
                elems_values(challenges@),
                self.early_window_size as nat,
                pow2((stream.vars() - self.early_window_size) as nat),
            ));
        }
        accepted
    }

    /// Phase 2, online: the window rounds answered from the grid (folded with each
    /// challenge), then the tables folded chunk by chunk with the window's challenges,
    /// the remaining rounds run as in the linear-time protocol, and the final oracle
    /// check. The challenges are drawn by the caller, one per variable.
    pub fn online_phase_with_challenges<S: PolynomialStream>(
        &self,
        stream: &mut S,
        sumcheck_claim: StdFr2,
        offline: OfflinePrecomputation,
        challenges: &[StdFr2],
    ) -> (accepted: bool)
        requires
            tables_wf(old(stream).tables(), old(stream).vars()),
            old(stream).tables().len() >= 2,
            old(stream).tables().len() + 1 < usize::MAX,
            denominators_invertible(old(stream).tables().len()),
            self.early_window_size <= old(stream).vars(),
            old(stream).vars() + 1 < usize::BITS,
            challenges@.len() == old(stream).vars(),
            elems_canonical(challenges@),
            sumcheck_claim.is_canonical(),
            offline.chunk_size == pow2(self.early_window_size as nat),
            offline.q_grid@.len() == pow((old(stream).tables().len() + 1) as int, self.early_window_size as nat),
            elems_canonical(offline.q_grid@),
        ensures
            final(stream).tables() == old(stream).tables(),
            final(stream).vars() == old(stream).vars(),
            accepted == (oracle_value(tables_values(old(stream).tables()), elems_values(challenges@)) == claim_after_inv(
                folded_window(
                    tables_values(old(stream).tables()),
                    elems_values(challenges@),
                    self.early_window_size as nat,
                    pow2((old(stream).vars() - self.early_window_size) as nat),
                ),
                window_claim(
                    elems_values(offline.q_grid@),
                    sumcheck_claim.value() as int,
                    elems_values(challenges@),
                    old(stream).tables().len(),
                    self.early_window_size as nat,
                ),
                elems_values(challenges@).skip(self.early_window_size as int),
            )),
            fermat_holds() && sumcheck_claim.value() == md(table_sum(tables_values(old(stream).tables()), pow2(old(stream).vars())))
                && elems_values(offline.q_grid@) == offline_grid(
                tables_values(old(stream).tables()),
                old(stream).tables().len(),
                self.early_window_size as nat,
                pow2((old(stream).vars() - self.early_window_size) as nat),
            ) ==> accepted,
            fermat_holds() && sumcheck_claim.value() != md(table_sum(tables_values(old(stream).tables()), pow2(old(stream).vars())))
                && elems_values(offline.q_grid@) == offline_grid(
                tables_values(old(stream).tables()),
                old(stream).tables().len(),
                self.early_window_size as nat,
                pow2((old(stream).vars() - self.early_window_size) as nat),
            ) && avoids_nodes(elems_values(challenges@), old(stream).tables().len()) ==> !accepted,
    {
        let num_vars = stream.num_vars();
        let d = stream.degree();
        let early_window_size = self.early_window_size;
        let ghost tv = tables_values(stream.tables());
        let ghost tables0 = stream.tables();
        let ghost rs = elems_values(challenges@);
        let ghost w = early_window_size as nat;
        let ghost q0 = elems_values(offline.q_grid@);
        let mut verifier = Verifier::new(d);
        let mut c_i = sumcheck_claim;
        let mut q = offline.q_grid;
        let chunk_size = offline.chunk_size;
        let base = d + 1;
        let denom_inv = compute_lagrange_denominator_invs(d);
        proof {
            assert(rs.skip(0) =~= rs);
            assert(challenges@.take(0) =~= verifier.challenges@);
            assert(elems_values(denom_inv@) =~= dinv_values(d as nat));
        }
        // 1. The rounds of the early window, answered from the grid.
        for i in 0..early_window_size
            invariant
                d == tables0.len(),
                2 <= d,
                d + 1 < usize::MAX,
                base == d + 1,
                num_vars == challenges@.len(),
                num_vars + 1 < usize::BITS,
                early_window_size <= num_vars,
                w == early_window_size,
                rs == elems_values(challenges@),
                elems_canonical(challenges@),
                denominators_invertible(d as nat),
                denom_inv@.len() == d,
                elems_canonical(denom_inv@),
                elems_values(denom_inv@) == dinv_values(d as nat),
                verifier.d == d,
                verifier.challenges@ == challenges@.take(i as int),
                i < w ==> q@.len() == pow(base as int, (w - i) as nat),
                elems_canonical(q@),
                c_i.is_canonical(),
                window_claim(elems_values(q@), c_i.value() as int, rs.skip(i as int), d as nat, (w - i) as nat)
                    == window_claim(q0, sumcheck_claim.value() as int, rs, d as nat, w),
        {
            let remaining_vars = early_window_size - 1 - i;
            let ghost qv = elems_values(q@);
            let ghost rest = rs.skip(i as int);
            proof {
                assert(remaining_vars < usize::BITS);
                assert((w - i) as nat == (remaining_vars + 1) as nat);
            }
            let q_len = q.len();
            let s_i_evals = grid_round_message(&q, d, remaining_vars);
            let ghost msg = s_i_evals@;
            verifier.add_s_i(s_i_evals);
            let challenge = verifier.send_challenge(challenges[i]);
            let s_i_0 = verifier.compute_s_i_0(c_i);
            proof {
                assert(elems_values(msg) =~= grid_message(qv, d as nat, remaining_vars as nat));
                crate::field_math::lemma_fe_sub_md(c_i.value(), msg[1].value());
                assert(rest[0] == challenge.value());
                assert(rest.drop_first() =~= rs.skip(i + 1));
                assert(challenges@.take(i + 1) =~= challenges@.take(i as int).push(challenges@[i as int]));
            }
            c_i = verifier.update_c_i(challenge, s_i_0);
            if remaining_vars > 0 {
                proof {
                    vstd::arithmetic::power::lemma_pow_adds(base as int, remaining_vars as nat, 1);
                    vstd::arithmetic::power::lemma_pow1(base as int);
                }
                q = dynamic_folding_step(q.as_slice(), challenge, d, base, remaining_vars, denom_inv.as_slice());
                proof {
                    assert(elems_values(q@) =~= fold_grid(qv, challenge.value() as int, d as nat, remaining_vars as nat));
                }
            }
        }
        // 2. The tables folded with the window's challenges, chunk by chunk.
        proof {
            vstd::bits::lemma_usize_pow2_no_overflow((num_vars - early_window_size) as nat);
            vstd::bits::lemma_usize_shl_is_mul(1, (num_vars - early_window_size) as usize);
            vstd::arithmetic::power2::lemma_pow2_adds(w, (num_vars - w) as nat);
            vstd::arithmetic::power2::lemma_pow2_pos(w);
            vstd::arithmetic::power2::lemma_pow2_pos((num_vars - w) as nat);
            vstd::bits::lemma_usize_pow2_no_overflow((num_vars + 1) as nat);
            vstd::arithmetic::power2::lemma_pow2_strictly_increases(num_vars as nat, (num_vars + 1) as nat);
            vstd::arithmetic::power2::lemma_pow2_unfold((num_vars + 1) as nat);
        }
        let remaining_rounds = num_vars - early_window_size;
        let final_hypercube_size = 1usize << remaining_rounds;
        let ghost n_chunks = final_hypercube_size as nat;
        let ghost total = pow2(num_vars as nat);
        proof {
            assert(n_chunks * chunk_size == total) by {
                vstd::arithmetic::mul::lemma_mul_is_commutative(pow2(w) as int, pow2((num_vars - w) as nat) as int);
            }
        }
        let ghost folded = folded_window(tv, rs, w, n_chunks);
        let window_challenges = vstd::slice::slice_subrange(verifier.challenges.as_slice(), 0, early_window_size);
        proof {
            assert(elems_values(window_challenges@) =~= rs.take(w as int));
        }
        let mut per_chunk: Vec<Vec<StdFr2>> = Vec::new();
        stream.rewind();
        let mut element_idx: usize = 0;
        loop
            invariant_except_break
                tables_wf(stream.tables(), stream.vars()),
                stream.tables() == tables0,
                stream.vars() == num_vars,
                tv == tables_values(tables0),
                d == tables0.len(),
                chunk_size == pow2(w),
                chunk_size > 0,
                n_chunks == final_hypercube_size,
                n_chunks * chunk_size == total,
                total == pow2(num_vars as nat),
                total * 2 <= usize::MAX,
                element_idx <= n_chunks,
                stream.position() == element_idx * chunk_size,
                per_chunk@.len() == element_idx,
                w < usize::BITS,
                window_challenges@.len() == w,
                elems_canonical(window_challenges@),
                elems_values(window_challenges@) == rs.take(w as int),
                folded == folded_window(tv, rs, w, n_chunks),
                forall|e: int| 0 <= e < element_idx ==> (#[trigger] per_chunk@[e])@.len() == d,
                forall|e: int| 0 <= e < element_idx ==> elems_canonical(#[trigger] per_chunk@[e]@),
                forall|k: int, e: int| 0 <= k < d && 0 <= e < element_idx ==> (#[trigger] per_chunk@[e]@[k]).value() == folded[k][e],
            ensures
                element_idx == n_chunks,
                stream.tables() == tables0,
                stream.vars() == num_vars,
                tables_wf(stream.tables(), stream.vars()),
                per_chunk@.len() == n_chunks,
                forall|e: int| 0 <= e < n_chunks ==> (#[trigger] per_chunk@[e])@.len() == d,
                forall|e: int| 0 <= e < n_chunks ==> elems_canonical(#[trigger] per_chunk@[e]@),
                forall|k: int, e: int| 0 <= k < d && 0 <= e < n_chunks ==> (#[trigger] per_chunk@[e]@[k]).value() == folded[k][e],
            decreases n_chunks - element_idx,
        {
            proof {
                if element_idx < n_chunks {
                    assert(element_idx * chunk_size + chunk_size <= n_chunks * chunk_size) by (nonlinear_arith)
                        requires
                            element_idx < n_chunks,
                    ;
                } else {
                    assert(element_idx * chunk_size == n_chunks * chunk_size);
                }
            }
            let next = stream.next_chunk(chunk_size);
            match next {
                Some(chunk) => {
                    let ghost pos = element_idx * chunk_size;
                    proof {
                        assert(element_idx < n_chunks) by {
                            if element_idx >= n_chunks {
                                assert(element_idx * chunk_size >= n_chunks * chunk_size) by (nonlinear_arith)
                                    requires
                                        element_idx >= n_chunks,
                                ;
                            }
                        }
                        assert(crate::streaming::chunk_end(pos as nat, chunk_size as nat, total) == pos + chunk_size);
                        assert((element_idx + 1) * chunk_size == pos + chunk_size) by (nonlinear_arith)
                            requires
                                pos == element_idx * chunk_size,
                        ;
                    }
                    let mut column: Vec<StdFr2> = Vec::new();
                    for k in 0..d
                        invariant
                            d == tables0.len(),
                            chunk@.len() == d,
                            forall|kk: int| 0 <= kk < chunk@.len() ==> (#[trigger] chunk@[kk])@ == tables0[kk].subrange(
                                pos as int,
                                (pos + chunk_size) as int,
                            ),
                            tables_wf(tables0, num_vars as nat),
                            tv == tables_values(tables0),
                            pos == element_idx * chunk_size,
                            (element_idx + 1) * chunk_size == pos + chunk_size,
                            pos + chunk_size <= total,
                            total == pow2(num_vars as nat),
                            chunk_size == pow2(w),
                            element_idx < n_chunks,
                            w < usize::BITS,
                            window_challenges@.len() == w,
                            elems_canonical(window_challenges@),
                            elems_values(window_challenges@) == rs.take(w as int),
                            folded == folded_window(tv, rs, w, n_chunks),
                            column@.len() == k,
                            elems_canonical(column@),
                            forall|kk: int| 0 <= kk < k ==> (#[trigger] column@[kk]).value() == folded[kk][element_idx as int],
                    {
                        proof {
                            assert(tables0[k as int].len() == total);
                            assert(elems_canonical(tables0[k as int]));
                        }
                        let folded_scalar = fold_hypercube_chunk(chunk[k].as_slice(), window_challenges);
                        proof {
                            assert(table_values(chunk@[k as int]@) =~= tv[k as int].subrange(pos as int, (pos + chunk_size) as int));
                            assert(folded[k as int][element_idx as int] == mle_eval(
                                tv[k as int].subrange(element_idx * pow2(w), (element_idx + 1) * pow2(w)),
                                rs.take(w as int),
                            ));
                        }
                        column.push(folded_scalar);
                    }
                    per_chunk.push(column);
                    element_idx = element_idx + 1;
                },
                None => {
                    proof {
                        if element_idx < n_chunks {
                            assert(element_idx * chunk_size < n_chunks * chunk_size) by (nonlinear_arith)
                                requires
                                    element_idx < n_chunks,
                                    chunk_size > 0,
                            ;
                        }
                    }
                    break;
                },
            }
        }
        let mut final_prover_arrays: Vec<Vec<StdFr2>> = Vec::new();
        for k in 0..d
            invariant
                final_prover_arrays@.len() == k,
                per_chunk@.len() == n_chunks,
                n_chunks == final_hypercube_size,
                forall|e: int| 0 <= e < n_chunks ==> (#[trigger] per_chunk@[e])@.len() == d,
                forall|e: int| 0 <= e < n_chunks ==> elems_canonical(#[trigger] per_chunk@[e]@),
                forall|kk: int, e: int| 0 <= kk < d && 0 <= e < n_chunks ==> (#[trigger] per_chunk@[e]@[kk]).value() == folded[kk][e],
                forall|kk: int| 0 <= kk < k ==> (#[trigger] final_prover_arrays@[kk])@.len() == n_chunks,
                forall|kk: int| 0 <= kk < k ==> elems_canonical(#[trigger] final_prover_arrays@[kk]@),
                forall|kk: int| 0 <= kk < k ==> #[trigger] table_values(final_prover_arrays@[kk]@) == folded[kk],
                folded == folded_window(tv, rs, w, n_chunks),
                d == tv.len(),
        {
            let mut row: Vec<StdFr2> = Vec::new();
            for e in 0..final_hypercube_size
                invariant
                    k < d,
                    per_chunk@.len() == n_chunks,
                    n_chunks == final_hypercube_size,
                    forall|e2: int| 0 <= e2 < n_chunks ==> (#[trigger] per_chunk@[e2])@.len() == d,
                    forall|e2: int| 0 <= e2 < n_chunks ==> elems_canonical(#[trigger] per_chunk@[e2]@),
                    forall|kk: int, e2: int| 0 <= kk < d && 0 <= e2 < n_chunks ==> (#[trigger] per_chunk@[e2]@[kk]).value() == folded[kk][e2],
                    row@.len() == e,
                    elems_canonical(row@),
                    forall|e2: int| 0 <= e2 < e ==> (#[trigger] row@[e2]).value() == folded[k as int][e2],
            {
                proof {
                    assert(per_chunk@[e as int]@.len() == d);
                    assert(elems_canonical(per_chunk@[e as int]@));
                }
                row.push(per_chunk[e][k]);
            }
            proof {
                assert(table_values(row@) =~= folded[k as int]);
            }
            final_prover_arrays.push(row);
        }
        // 3. The remaining rounds, as in the linear-time protocol.
        let ghost c_w = c_i.value() as int;
        let mut prover = Prover::with_arrays(final_prover_arrays);
        proof {
            assert(tables_values(prover.tables()) =~= folded);
            assert(rs.skip(w as int) =~= rs.skip(early_window_size as int));
            assert(verifier.challenges@ =~= challenges@.take(w as int));
            assert forall|k: int| 0 <= k < prover.tables().len() implies (#[trigger] prover.tables()[k]).len() >= pow2((num_vars - w) as nat) by {}
        }
        for i in early_window_size..num_vars
            invariant
                num_vars == challenges@.len(),
                num_vars < usize::BITS,
                rs == elems_values(challenges@),
                elems_canonical(challenges@),
                d >= 2,
                denominators_invertible(d as nat),
                prover.wf(),
                prover.d == d,
                verifier.d == d,
                verifier.challenges@ == challenges@.take(i as int),
                tables_min_len(prover.tables(), pow2((num_vars - i) as nat)),
                c_i.is_canonical(),
                claim_after_inv(tables_values(prover.tables()), c_i.value() as int, rs.skip(i as int)) == claim_after_inv(
                    folded,
                    c_w,
                    rs.skip(w as int),
                ),
        {
            let s_i = prover.compute_s_i(num_vars, i);
            let ghost tvp = tables_values(prover.tables());
            let ghost msg = s_i@;
            verifier.add_s_i(s_i);
            let s_i_0 = verifier.compute_s_i_0(c_i);
            let challenge = verifier.send_challenge(challenges[i]);
            proof {
                let m = (num_vars - i) as nat;
                let rest = rs.skip(i as int);
                assert(elems_values(msg) =~= round_message(tvp, next_size(num_vars as nat, i as nat)));
                lemma_round_step(tvp, c_i, msg, s_i_0, rest, m);
                assert(rest[0] == challenge.value());
                assert(rest.drop_first() =~= rs.skip(i + 1));
                assert(challenges@.take(i + 1) =~= challenges@.take(i as int).push(challenges@[i as int]));
            }
            c_i = verifier.update_c_i(challenge, s_i_0);
            let ghost before = tables_values(prover.tables());
            prover.update_p_arrays(num_vars, i, challenge);
            proof {
                assert(tables_values(prover.tables()) =~= fold_tables(before, challenge.value() as int, pow2((num_vars - i - 1) as nat)));
                assert forall|k: int| 0 <= k < prover.tables().len() implies (#[trigger] prover.tables()[k]).len() >= pow2((num_vars - (i + 1)) as nat) by {
                    assert(table_values(prover.tables()[k]).len() == prover.tables()[k].len());
                }
            }
        }
        // 4. The final oracle check.
        proof {
            assert(verifier.challenges@ =~= challenges@);
            assert(rs.skip(num_vars as int).len() == 0);
        }
        let final_evals = stream.evaluate_at_point(verifier.challenges.as_slice());
        let mut expected_product = StdFr2::one();
        proof {
            lemma_md_canonical(1);
        }
        for k in 0..final_evals.len()
            invariant
                final_evals@.len() == d,
                d == tv.len(),
                tv == tables_values(tables0),
                elems_canonical(final_evals@),
                forall|kk: int| 0 <= kk < d ==> (#[trigger] final_evals@[kk]).value() == mle_eval(table_values(tables0[kk]), rs),
                expected_product.is_canonical(),
                expected_product.value() == md(seq_prod(Seq::new(k as nat, |kk: int| mle_eval(tv[kk], rs)))),
        {
            proof {
                lemma_md_canonical(final_evals@[k as int].value());
                crate::field_math::lemma_fe_mul_md(
                    expected_product.value(),
                    final_evals@[k as int].value(),
                    seq_prod(Seq::new(k as nat, |kk: int| mle_eval(tv[kk], rs))),
                    mle_eval(tv[k as int], rs),
                );
                crate::field_math::lemma_seq_prod_new_step(k as nat, |kk: int| mle_eval(tv[kk], rs));
            }
            expected_product = crate::ark_field::fr_mul(&expected_product, &final_evals[k]);
        }
        proof {
            crate::bigint_field::lemma_eq_spec_value(c_i, expected_product);
        }
        let accepted = c_i == expected_product;
        proof {
            if fermat_holds() && sumcheck_claim.value() == md(table_sum(tv, pow2(num_vars as nat))) && q0 == offline_grid(
                tv,
                d as nat,
                w,
                pow2((num_vars - w) as nat),
            ) {
                assert forall|k: int| 0 <= k < tv.len() implies (#[trigger] tv[k]).len() == pow2(rs.len()) by {
                    assert(tv[k] == table_values(tables0[k]));
                }
                crate::window_values::lemma_eval_product_complete(tv, rs, w);
            }
            if fermat_holds() && q0 == offline_grid(tv, d as nat, w, pow2((num_vars - w) as nat)) {
                assert forall|k: int| 0 <= k < tv.len() implies (#[trigger] tv[k]).len() == pow2(rs.len()) by {
                    assert(tv[k] == table_values(tables0[k]));
                }
                lemma_field_point_of(challenges@);
                crate::window_values::lemma_window_verdict(tv, sumcheck_claim.value() as int, rs, w);
                crate::soundness::lemma_sound_verdict(tv, sumcheck_claim.value() as int, rs);
            }
        }
        accepted
    }
}

/// The whole evaluation tables, read from the start of the stream as one chunk.
pub(crate) fn read_all_tables<S: PolynomialStream>(stream: &mut S) -> (chunk: Vec<Vec<StdFr2>>)
    requires
        tables_wf(old(stream).tables(), old(stream).vars()),
    ensures
        final(stream).tables() == old(stream).tables(),
        final(stream).vars() == old(stream).vars(),
        tables_wf(final(stream).tables(), final(stream).vars()),
        chunk@.len() == old(stream).tables().len(),
        forall|k: int| 0 <= k < chunk@.len() ==> (#[trigger] chunk@[k])@ == old(stream).tables()[k],
{
    let num_vars = stream.num_vars();
    stream.rewind();
    proof {
        vstd::bits::lemma_usize_pow2_no_overflow(num_vars as nat);
        vstd::bits::lemma_usize_shl_is_mul(1, num_vars);
        vstd::arithmetic::power2::lemma_pow2_pos(num_vars as nat);
    }
    let full_chunk = stream.next_chunk(1usize << num_vars);
    match full_chunk {
        Some(chunk) => {
            proof {
                assert forall|k: int| 0 <= k < chunk@.len() implies (#[trigger] chunk@[k])@ == stream.tables()[k] by {
                    assert(stream.tables()[k].len() == pow2(num_vars as nat));
                    assert(stream.tables()[k].subrange(0, pow2(num_vars as nat) as int) =~= stream.tables()[k]);
                }
            }
            chunk
        },
        None => {
            proof {
                assert(false);
            }
            Vec::new()
        },
    }
}

impl SumcheckProtocol for LinearTimeSC {
    open spec fn supports(&self, d: nat, l: nat) -> bool {
        &&& d >= 2
        &&& denominators_invertible(d)
    }

    /// The whole tables read from the stream, then `linear_time_sc_with_challenges`.
    fn run_with_challenges<S: PolynomialStream>(&self, stream: &mut S, sumcheck_claim: StdFr2, challenges: &[StdFr2]) -> (accepted: bool)
        ensures
            accepted == (oracle_value(tables_values(old(stream).tables()), elems_values(challenges@)) == claim_after_inv(
                tables_values(old(stream).tables()),
                sumcheck_claim.value() as int,
                elems_values(challenges@),
            )),
            fermat_holds() && sumcheck_claim.value() == md(table_sum(tables_values(old(stream).tables()), pow2(challenges@.len())))
                ==> accepted,
            fermat_holds() && sumcheck_claim.value() != md(table_sum(tables_values(old(stream).tables()), pow2(challenges@.len())))
                && avoids_nodes(elems_values(challenges@), old(stream).tables().len()) ==> !accepted,
    {
        let num_poly = stream.degree();
        let full_chunk = read_all_tables(stream);
        proof {
            assert(polys_values(full_chunk@) =~= tables_values(stream.tables()));
        }
        Self::linear_time_sc_with_challenges(full_chunk.as_slice(), num_poly, sumcheck_claim, challenges)
    }

    /// The whole tables read from the stream, then `linear_time_sc_sb_1_with_challenges`.
    fn run_sb_1_with_challenges<S: PolynomialStream>(&self, stream: &mut S, sumcheck_claim: StdFr2, challenges: &[StdFr2]) -> (accepted: bool)
        ensures
            accepted == (oracle_value(tables_values(old(stream).tables()), elems_values(challenges@)) == claim_after_inv(
                tables_values(old(stream).tables()),
                sumcheck_claim.value() as int,
                elems_values(challenges@),
            )),
            fermat_holds() && sumcheck_claim.value() == md(table_sum(tables_values(old(stream).tables()), pow2(challenges@.len())))
                ==> accepted,
            fermat_holds() && sumcheck_claim.value() != md(table_sum(tables_values(old(stream).tables()), pow2(challenges@.len())))
                && avoids_nodes(elems_values(challenges@), old(stream).tables().len()) ==> !accepted,
    {
        let num_poly = stream.degree();
        let full_chunk = read_all_tables(stream);
        proof {
            assert(polys_values(full_chunk@) =~= tables_values(stream.tables()));
        }
        Self::linear_time_sc_sb_1_with_challenges(full_chunk.as_slice(), num_poly, sumcheck_claim, challenges)
    }

    fn run<S: PolynomialStream>(&self, stream: &mut S, sumcheck_claim: StdFr2) -> (accepted: bool)
        ensures
            fermat_holds() && sumcheck_claim.value() == md(table_sum(tables_values(old(stream).tables()), pow2(old(stream).vars())))
                ==> accepted,
            exists|rs: Seq<int>|
                field_point(rs) && rs.len() == old(stream).vars() && accepted == #[trigger] verdict_inv(
                    tables_values(old(stream).tables()),
                    sumcheck_claim.value() as int,
                    rs,
                ),
            fermat_holds() && sumcheck_claim.value() != md(table_sum(tables_values(old(stream).tables()), pow2(old(stream).vars())))
                && accepted ==> exists|rs: Seq<int>|
                #![trigger verdict_inv(tables_values(old(stream).tables()), sumcheck_claim.value() as int, rs)]
                field_point(rs) && rs.len() == old(stream).vars() && verdict_inv(
                    tables_values(old(stream).tables()),
                    sumcheck_claim.value() as int,
                    rs,
                ) && !avoids_nodes(rs, old(stream).tables().len()),
    {
        let ghost tv = tables_values(stream.tables());
        let challenges = random_challenges(stream.num_vars());
        let accepted = self.run_with_challenges(stream, sumcheck_claim, challenges.as_slice());
        proof {
            lemma_field_point_of(challenges@);
            assert(accepted == verdict_inv(tv, sumcheck_claim.value() as int, elems_values(challenges@)));
        }
        accepted
    }

    fn run_sb_1<S: PolynomialStream>(&self, stream: &mut S, sumcheck_claim: StdFr2) -> (accepted: bool)
        ensures
            fermat_holds() && sumcheck_claim.value() == md(table_sum(tables_values(old(stream).tables()), pow2(old(stream).vars())))
                ==> accepted,
            exists|rs: Seq<int>|
                field_point(rs) && rs.len() == old(stream).vars() && accepted == #[trigger] verdict_inv(
                    tables_values(old(stream).tables()),
                    sumcheck_claim.value() as int,
                    rs,
                ),
            fermat_holds() && sumcheck_claim.value() != md(table_sum(tables_values(old(stream).tables()), pow2(old(stream).vars())))
                && accepted ==> exists|rs: Seq<int>|
                #![trigger verdict_inv(tables_values(old(stream).tables()), sumcheck_claim.value() as int, rs)]
                field_point(rs) && rs.len() == old(stream).vars() && verdict_inv(
                    tables_values(old(stream).tables()),
                    sumcheck_claim.value() as int,
                    rs,
                ) && !avoids_nodes(rs, old(stream).tables().len()),
    {
        let ghost tv = tables_values(stream.tables());
        let challenges = random_challenges(stream.num_vars());
        let accepted = self.run_sb_1_with_challenges(stream, sumcheck_claim, challenges.as_slice());
        proof {
            lemma_field_point_of(challenges@);
            assert(accepted == verdict_inv(tv, sumcheck_claim.value() as int, elems_values(challenges@)));
        }
        accepted
    }
}

impl SumcheckProtocol for EvalProductSV {
    open spec fn supports(&self, d: nat, l: nat) -> bool {
        &&& d >= 2
        &&& d + 1 < usize::MAX
        &&& denominators_invertible(d)
        &&& self.early_window_size <= l
        &&& l + 1 < usize::BITS
        &&& pow((d + 1) as int, self.early_window_size as nat) <= usize::MAX
    }

    /// The offline grid (`precomputation_phase_sequential`), then `online_phase_with_challenges`.
    fn run_with_challenges<S: PolynomialStream>(&self, stream: &mut S, sumcheck_claim: StdFr2, challenges: &[StdFr2]) -> (accepted: bool)
        ensures
            accepted == (oracle_value(tables_values(old(stream).tables()), elems_values(challenges@)) == claim_after_inv(
                folded_window(
                    tables_values(old(stream).tables()),
                    elems_values(challenges@),
                    self.early_window_size as nat,
                    pow2((old(stream).vars() - self.early_window_size) as nat),
                ),
                window_claim(
                    offline_grid(
                        tables_values(old(stream).tables()),
                        old(stream).tables().len(),
                        self.early_window_size as nat,
                        pow2((old(stream).vars() - self.early_window_size) as nat),
                    ),
                    sumcheck_claim.value() as int,
                    elems_values(challenges@),
                    old(stream).tables().len(),
                    self.early_window_size as nat,
                ),
                elems_values(challenges@).skip(self.early_window_size as int),
            )),
            fermat_holds() && sumcheck_claim.value() == md(table_sum(tables_values(old(stream).tables()), pow2(challenges@.len())))
                ==> accepted,
            fermat_holds() && sumcheck_claim.value() != md(table_sum(tables_values(old(stream).tables()), pow2(challenges@.len())))
                && avoids_nodes(elems_values(challenges@), old(stream).tables().len()) ==> !accepted,
    {
        let offline_data = self.precomputation_phase_sequential(stream);
        proof {
            assert(elems_values(offline_data.q_grid@) =~= offline_grid(
                tables_values(stream.tables()),
                stream.tables().len(),
                self.early_window_size as nat,
                pow2((stream.vars() - self.early_window_size) as nat),
            ));
        }
        self.online_phase_with_challenges(stream, sumcheck_claim, offline_data, challenges)
    }

    /// Not implemented for this protocol: accepts without checking.
    fn run_sb_1_with_challenges<S: PolynomialStream>(&self, stream: &mut S, sumcheck_claim: StdFr2, challenges: &[StdFr2]) -> (accepted: bool)
        ensures
            accepted,
    {
        true
    }

    fn run<S: PolynomialStream>(&self, stream: &mut S, sumcheck_claim: StdFr2) -> (accepted: bool)
        ensures
            fermat_holds() && sumcheck_claim.value() == md(table_sum(tables_values(old(stream).tables()), pow2(old(stream).vars())))
                ==> accepted,
            exists|rs: Seq<int>|
                field_point(rs) && rs.len() == old(stream).vars() && accepted == #[trigger] window_verdict(
                    tables_values(old(stream).tables()),
                    offline_grid(
                        tables_values(old(stream).tables()),
                        old(stream).tables().len(),
                        self.early_window_size as nat,
                        pow2((old(stream).vars() - self.early_window_size) as nat),
                    ),
                    sumcheck_claim.value() as int,
                    rs,
                    self.early_window_size as nat,
                    pow2((old(stream).vars() - self.early_window_size) as nat),
                ),
            fermat_holds() && sumcheck_claim.value() != md(table_sum(tables_values(old(stream).tables()), pow2(old(stream).vars())))
                && accepted ==> exists|rs: Seq<int>|
                #![trigger verdict_inv(tables_values(old(stream).tables()), sumcheck_claim.value() as int, rs)]
                field_point(rs) && rs.len() == old(stream).vars() && verdict_inv(
                    tables_values(old(stream).tables()),
                    sumcheck_claim.value() as int,
                    rs,
                ) && !avoids_nodes(rs, old(stream).tables().len()),
    {
        let ghost tv = tables_values(stream.tables());
        let challenges = random_challenges(stream.num_vars());
        let accepted = self.run_with_challenges(stream, sumcheck_claim, challenges.as_slice());
        proof {
            lemma_field_point_of(challenges@);
            assert(accepted == window_verdict(
                tv,
                offline_grid(tv, tv.len(), self.early_window_size as nat, pow2((stream.vars() - self.early_window_size) as nat)),
                sumcheck_claim.value() as int,
                elems_values(challenges@),
                self.early_window_size as nat,
                pow2((stream.vars() - self.early_window_size) as nat),
            ));
            if fermat_holds() {
                assert forall|k: int| 0 <= k < tv.len() implies (#[trigger] tv[k]).len() == pow2(challenges@.len()) by {
                    assert(tv[k] == table_values(stream.tables()[k]));
                }
                crate::window_values::lemma_window_verdict(
                    tv,
                    sumcheck_claim.value() as int,
                    elems_values(challenges@),
                    self.early_window_size as nat,
                );
                assert(accepted == verdict_inv(tv, sumcheck_claim.value() as int, elems_values(challenges@)));
            }
        }
        accepted
    }

    fn run_sb_1<S: PolynomialStream>(&self, stream: &mut S, sumcheck_claim: StdFr2) -> (accepted: bool)
        ensures
            accepted,
    {
        let challenges = random_challenges(stream.num_vars());
        self.run_sb_1_with_challenges(stream, sumcheck_claim, challenges.as_slice())
    }
}

/// The reduction step of the offline phase when the chunks are handed out to several
/// threads: a chunk's product grid added, entry by entry, into the grid accumulated so
/// far.
pub fn accumulate_grid(acc: Vec<StdFr2>, partial: &[StdFr2]) -> (r: Vec<StdFr2>)
    requires
        acc@.len() == partial@.len(),
        elems_canonical(acc@),
        elems_canonical(partial@),
    ensures
        r@.len() == acc@.len(),
        elems_canonical(r@),
        forall|i: int| 0 <= i < r@.len() ==> (#[trigger] r@[i]).value() == crate::bigint_field::fe_add(
            acc@[i].value(),
            partial@[i].value(),
        ),
        grid_entries(r@) == grid_add(grid_entries(acc@), grid_entries(partial@)),
{
    let mut acc = acc;
    let ghost acc0 = acc@;
    let n = acc.len();
    for i in 0..n
        invariant
            n == acc0.len(),
            acc@.len() == acc0.len(),
            acc0.len() == partial@.len(),
            elems_canonical(acc0),
            elems_canonical(partial@),
            elems_canonical(acc@),
            forall|j: int| 0 <= j < i ==> (#[trigger] acc@[j]).value() == crate::bigint_field::fe_add(
                acc0[j].value(),
                partial@[j].value(),
            ),
            forall|j: int| i <= j < acc@.len() ==> #[trigger] acc@[j] == acc0[j],
    {
        let sum = fr_add(&acc[i], &partial[i]);
        acc.set(i, sum);
    }
    proof {
        assert(grid_entries(acc@) =~= grid_add(grid_entries(acc0), grid_entries(partial@)));
    }
    acc
}


/// Grids added entry by entry in the field, as `accumulate_grid` adds them.
pub open spec fn grid_add(a: Seq<nat>, b: Seq<nat>) -> Seq<nat> {
    Seq::new(a.len(), |i: int| crate::bigint_field::fe_add(a[i], b[i]))
}

/// The grid of n zeros.
pub open spec fn zero_grid(n: nat) -> Seq<nat> {
    Seq::new(n, |i: int| 0nat)
}

/// The values of a grid of field elements.
pub open spec fn grid_entries(g: Seq<StdFr2>) -> Seq<nat> {
    g.map_values(|x: StdFr2| x.value())
}

/// Adding grids entry by entry is a commutative monoid on grids of canonical entries,
/// with the zero grid as identity: the chunks' product grids reduced in any order, and
/// grouped in any way, give the grid that the sequential offline phase accumulates.
pub proof fn lemma_grid_add_monoid(a: Seq<nat>, b: Seq<nat>, c: Seq<nat>)
    requires
        a.len() == b.len(),
        b.len() == c.len(),
        forall|i: int| 0 <= i < a.len() ==> #[trigger] a[i] < crate::bigint_field::modulus(),
    ensures
        grid_add(a, b) == grid_add(b, a),
        grid_add(grid_add(a, b), c) == grid_add(a, grid_add(b, c)),
        grid_add(a, zero_grid(a.len())) == a,
{
    let p = crate::bigint_field::modulus() as int;
    assert(grid_add(a, b) =~= grid_add(b, a));
    assert forall|i: int| 0 <= i < a.len() implies #[trigger] grid_add(grid_add(a, b), c)[i] == grid_add(a, grid_add(b, c))[i] by {
        crate::field_math::lemma_fe_add_assoc(a[i], b[i], c[i]);
    }
    assert(grid_add(grid_add(a, b), c) =~= grid_add(a, grid_add(b, c)));
    assert forall|i: int| 0 <= i < a.len() implies #[trigger] grid_add(a, zero_grid(a.len()))[i] == a[i] by {
        vstd::arithmetic::div_mod::lemma_small_mod(a[i], p as nat);
    }
    assert(grid_add(a, zero_grid(a.len())) =~= a);
}

} // verus!
