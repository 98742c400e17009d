//! The linear-time sum-check protocol for a product of d multilinear polynomials
//! (vanilla, 1-sb and sb-all variants), on the standard-form field `StdFr2`.
use crate::bigint_field::{fe_add, fe_inv, fe_mul, fe_sub, modulus, modulus_int, StdFr2};
use crate::field_math::{half_inv, HALF};
use crate::engine::{get_u_hat_domain, u_hat_domain, EvaluationPoint};
use crate::completeness::{lemma_honest_claim_accepted, table_sum};
use crate::soundness::avoids_nodes;
use crate::sumcheck_model::{
    reconstruct_s0,
    field_point,
    lemma_field_point_of,
    verdict,
    claim_after,
    elems_values,
    fold_once,
    fold_all,
    fold_prefix,
    fold_tables,
    interpolate,
    lagrange_partial,
    lemma_fold_all_len,
    lemma_fold_all_push,
    lemma_pair_index,
    lemma_term_value,
    mle_eval,
    node_value,
    oracle_value,
    pair_term,
    product_prefix,
    round_message,
    round_sum,
    table_values,
    tables_canonical,
    tables_min_len,
    tables_values,
};
use crate::poly::{fermat_holds, basis_den, basis_num, lagrange_coeff, lemma_basis_step, num_factors, vanishing_prod};
use crate::field_math::{
    lemma_fe_add_md,
    lemma_fe_mul_md,
    lemma_fe_sub_md,
    lemma_md_canonical,
    lemma_md_range,
    lemma_seq_prod_new_step,
    lemma_seq_sum_new_step,
    md,
    seq_prod,
    seq_sum,
};
use crate::protocol::read_all_tables;
use crate::sc_verifier::{elems_canonical, random_challenges};
use crate::streaming::{tables_wf, PolynomialStream};
use vstd::prelude::*;

verus! {

// ================================================================================
// Prover
// ================================================================================

pub struct BigIntProver {
    list_of_arrays: Vec<Vec<StdFr2>>,
    d: usize,
}

impl BigIntProver {
    /// The bookkeeping tables, one per polynomial.
    pub closed spec fn tables(&self) -> Seq<Seq<StdFr2>> {
        self.list_of_arrays@.map_values(|v: Vec<StdFr2>| v@)
    }

    /// The number of polynomials matches the tables, whose entries are canonical.
    pub closed spec fn wf(&self) -> bool {
        &&& self.d == self.list_of_arrays@.len()
        &&& tables_canonical(self.tables())
    }

    pub fn new(list_of_arrays: Vec<Vec<StdFr2>>) -> (r: Self)
        ensures
            r.tables() == list_of_arrays@.map_values(|v: Vec<StdFr2>| v@),
            r.wf() == tables_canonical(r.tables()),
    {
        let d = list_of_arrays.len();
        BigIntProver { list_of_arrays, d }
    }

    /// Vanilla: term = (delta_p * StdFr2::from_u64(v)) + p0, the generic big-big
    /// multiplication (mul_bb) for both the "scale by v" step and the running product.
    pub fn compute_s_i(&self, next_hypercube_size: usize) -> (s_i: Vec<StdFr2>)
        requires
            self.wf(),
            self.tables().len() >= 1,
            tables_min_len(self.tables(), 2 * next_hypercube_size as nat),
        ensures
            s_i@.len() == self.tables().len(),
            forall|i: int| 0 <= i < s_i@.len() ==> (#[trigger] s_i@[i]).is_canonical(),
            forall|i: int| 0 <= i < s_i@.len() ==> (#[trigger] s_i@[i]).value()
                == round_message(tables_values(self.tables()), next_hypercube_size as nat)[i],
    {
        proof {
            // The first table, held in a vector, bounds the round size.
            crate::sumcheck_model::lemma_vec_len_fits(self.list_of_arrays@[0]);
            assert(self.tables()[0] == self.list_of_arrays@[0]@);
        }
        let ghost t = tables_values(self.tables());
        let u_d_hat = get_u_hat_domain(self.d);
        let mut s_i = vec![StdFr2::zero(); self.d];
        for u_idx in 0..self.d
            invariant
                self.wf(),
                t == tables_values(self.tables()),
                t.len() >= 1,
                2 * next_hypercube_size <= usize::MAX,
                tables_min_len(self.tables(), 2 * next_hypercube_size as nat),
                u_d_hat@ == u_hat_domain(self.d as nat),
                s_i@.len() == self.d,
                forall|i: int| 0 <= i < s_i@.len() ==> (#[trigger] s_i@[i]).is_canonical(),
                forall|i: int| 0 <= i < u_idx ==> (#[trigger] s_i@[i]).value()
                    == round_message(t, next_hypercube_size as nat)[i],
        {
            let u = u_d_hat[u_idx];
            let mut sum = StdFr2::zero();
            let v_field = match u {
                EvaluationPoint::Infinity => None,
                EvaluationPoint::Value(v) => Some(StdFr2::from_u64(v)),
            };
            proof {
                lemma_md_canonical(0);
            }
            for xp in 0..next_hypercube_size
                invariant
                    self.wf(),
                    t == tables_values(self.tables()),
                    0 <= u_idx < self.d,
                    u == u_hat_domain(self.d as nat)[u_idx as int],
                    2 * next_hypercube_size <= usize::MAX,
                    tables_min_len(self.tables(), 2 * next_hypercube_size as nat),
                    sum.is_canonical(),
                    sum.value() == md(round_sum(t, xp as nat, u)),
                    (u is Infinity) == (v_field is None),
                    v_field matches Some(vf) ==> (u matches EvaluationPoint::Value(v) && vf.value() == v),
            {
                let mut prod = StdFr2::one();
                proof {
                    lemma_pair_index(xp);
                    lemma_md_canonical(1);
                }
                let i0 = xp << 1;
                let i1 = i0 | 1;
                for k in 0..self.d
                    invariant
                        self.wf(),
                        t == tables_values(self.tables()),
                        0 <= xp < next_hypercube_size,
                        2 * next_hypercube_size <= usize::MAX,
                        tables_min_len(self.tables(), 2 * next_hypercube_size as nat),
                        i0 == 2 * xp,
                        i1 == 2 * xp + 1,
                        prod.is_canonical(),
                        prod.value() == md(product_prefix(t, xp as int, u, k as nat)),
                    (u is Infinity) == (v_field is None),
                    v_field matches Some(vf) ==> (u matches EvaluationPoint::Value(v) && vf.value() == v),
                {
                    proof {
                        assert(self.tables()[k as int] == self.list_of_arrays@[k as int]@);
                        assert(self.tables()[k as int].len() >= 2 * next_hypercube_size);
                    }
                    let p0 = self.list_of_arrays[k][i0];
                    let p1 = self.list_of_arrays[k][i1];
                    proof {
                        assert(p0.is_canonical() && p1.is_canonical());
                        assert(t[k as int][2 * xp] == p0.value());
                        assert(t[k as int][2 * xp + 1] == p1.value());
                    }
                    let delta = p1.sub(&p0);
                    let term = match v_field {
                        None => delta,
                        Some(vf) => delta.mul_bb(&vf).add(&p0),
                    };
                    proof {
                        match u {
                            EvaluationPoint::Infinity => {
                                lemma_fe_sub_md(p1.value(), p0.value());
                            },
                            EvaluationPoint::Value(v) => {
                                lemma_term_value(
                                    p0.value(),
                                    p1.value(),
                                    delta.value(),
                                    v as nat,
                                    fe_mul(delta.value(), v as nat),
                                    term.value(),
                                );
                            },
                        }
                        assert(term.value() == md(pair_term(t, k as int, xp as int, u)));
                        lemma_fe_mul_md(
                            prod.value(),
                            term.value(),
                            product_prefix(t, xp as int, u, k as nat),
                            pair_term(t, k as int, xp as int, u),
                        );
                        lemma_seq_prod_new_step(k as nat, |kk: int| pair_term(t, kk, xp as int, u));
                    }
                    prod = prod.mul_bb(&term);
                }
                proof {
                    lemma_fe_add_md(
                        sum.value(),
                        prod.value(),
                        round_sum(t, xp as nat, u),
                        product_prefix(t, xp as int, u, t.len()),
                    );
                    lemma_seq_sum_new_step(xp as nat, |x: int| product_prefix(t, x, u, t.len()));
                    assert(self.d == t.len());
                }
                sum = sum.add(&prod);
            }
            s_i.set(u_idx, sum);
        }
        s_i
    }

    /// Small-big: the "scale delta_p by the small v" step uses StdFr2::mul_sb(v)
    /// instead of a generic mul_bb.
    pub fn compute_s_i_sb(&self, next_hypercube_size: usize) -> (s_i: Vec<StdFr2>)
        requires
            self.wf(),
            self.tables().len() >= 1,
            tables_min_len(self.tables(), 2 * next_hypercube_size as nat),
        ensures
            s_i@.len() == self.tables().len(),
            forall|i: int| 0 <= i < s_i@.len() ==> (#[trigger] s_i@[i]).is_canonical(),
            forall|i: int| 0 <= i < s_i@.len() ==> (#[trigger] s_i@[i]).value()
                == round_message(tables_values(self.tables()), next_hypercube_size as nat)[i],
    {
        proof {
            // The first table, held in a vector, bounds the round size.
            crate::sumcheck_model::lemma_vec_len_fits(self.list_of_arrays@[0]);
            assert(self.tables()[0] == self.list_of_arrays@[0]@);
        }
        let ghost t = tables_values(self.tables());
        let u_d_hat = get_u_hat_domain(self.d);
        let mut s_i = vec![StdFr2::zero(); self.d];
        for u_idx in 0..self.d
            invariant
                self.wf(),
                t == tables_values(self.tables()),
                t.len() >= 1,
                2 * next_hypercube_size <= usize::MAX,
                tables_min_len(self.tables(), 2 * next_hypercube_size as nat),
                u_d_hat@ == u_hat_domain(self.d as nat),
                s_i@.len() == self.d,
                forall|i: int| 0 <= i < s_i@.len() ==> (#[trigger] s_i@[i]).is_canonical(),
                forall|i: int| 0 <= i < u_idx ==> (#[trigger] s_i@[i]).value()
                    == round_message(t, next_hypercube_size as nat)[i],
        {
            let u = u_d_hat[u_idx];
            let mut sum = StdFr2::zero();
            proof {
                lemma_md_canonical(0);
            }
            for xp in 0..next_hypercube_size
                invariant
                    self.wf(),
                    t == tables_values(self.tables()),
                    0 <= u_idx < self.d,
                    u == u_hat_domain(self.d as nat)[u_idx as int],
                    2 * next_hypercube_size <= usize::MAX,
                    tables_min_len(self.tables(), 2 * next_hypercube_size as nat),
                    sum.is_canonical(),
                    sum.value() == md(round_sum(t, xp as nat, u)),
            {
                let mut prod = StdFr2::one();
                proof {
                    lemma_pair_index(xp);
                    lemma_md_canonical(1);
                }
                let i0 = xp << 1;
                let i1 = i0 | 1;
                for k in 0..self.d
                    invariant
                        self.wf(),
                        t == tables_values(self.tables()),
                        0 <= xp < next_hypercube_size,
                        2 * next_hypercube_size <= usize::MAX,
                        tables_min_len(self.tables(), 2 * next_hypercube_size as nat),
                        i0 == 2 * xp,
                        i1 == 2 * xp + 1,
                        prod.is_canonical(),
                        prod.value() == md(product_prefix(t, xp as int, u, k as nat)),
                {
                    proof {
                        assert(self.tables()[k as int] == self.list_of_arrays@[k as int]@);
                        assert(self.tables()[k as int].len() >= 2 * next_hypercube_size);
                    }
                    let p0 = self.list_of_arrays[k][i0];
                    let p1 = self.list_of_arrays[k][i1];
                    proof {
                        assert(p0.is_canonical() && p1.is_canonical());
                        assert(t[k as int][2 * xp] == p0.value());
                        assert(t[k as int][2 * xp + 1] == p1.value());
                    }
                    let delta = p1.sub(&p0);
                    let term = match u {
                        EvaluationPoint::Infinity => delta,
                        EvaluationPoint::Value(v) => delta.mul_sb(v).add(&p0),
                    };
                    proof {
                        match u {
                            EvaluationPoint::Infinity => {
                                lemma_fe_sub_md(p1.value(), p0.value());
                            },
                            EvaluationPoint::Value(v) => {
                                lemma_term_value(
                                    p0.value(),
                                    p1.value(),
                                    delta.value(),
                                    v as nat,
                                    fe_mul(delta.value(), v as nat),
                                    term.value(),
                                );
                            },
                        }
                        assert(term.value() == md(pair_term(t, k as int, xp as int, u)));
                        lemma_fe_mul_md(
                            prod.value(),
                            term.value(),
                            product_prefix(t, xp as int, u, k as nat),
                            pair_term(t, k as int, xp as int, u),
                        );
                        lemma_seq_prod_new_step(k as nat, |kk: int| pair_term(t, kk, xp as int, u));
                    }
                    prod = prod.mul_bb(&term);
                }
                proof {
                    lemma_fe_add_md(
                        sum.value(),
                        prod.value(),
                        round_sum(t, xp as nat, u),
                        product_prefix(t, xp as int, u, t.len()),
                    );
                    lemma_seq_sum_new_step(xp as nat, |x: int| product_prefix(t, x, u, t.len()));
                    assert(self.d == t.len());
                }
                sum = sum.add(&prod);
            }
            s_i.set(u_idx, sum);
        }
        s_i
    }

    /// Folds every table with the verifier's challenge: entry x' becomes
    /// p0 + challenge (p1 - p0), where p0, p1 are entries 2x' and 2x'+1.
    pub fn update_p_arrays(&mut self, next_hypercube_size: usize, challenge: StdFr2)
        requires
            old(self).wf(),
            2 * next_hypercube_size <= usize::MAX,
            tables_min_len(old(self).tables(), 2 * next_hypercube_size as nat),
        ensures
            final(self).wf(),
            final(self).tables().len() == old(self).tables().len(),
            forall|k: int|
                0 <= k < old(self).tables().len() ==> table_values(#[trigger] final(self).tables()[k])
                    == fold_prefix(
                    table_values(old(self).tables()[k]),
                    challenge.value() as int,
                    next_hypercube_size as nat,
                ),
            md(table_sum(tables_values(final(self).tables()), next_hypercube_size as nat)) == md(
                crate::poly::peval(
                    crate::completeness::round_poly(tables_values(old(self).tables()), next_hypercube_size as nat),
                    challenge.value() as int,
                ),
            ),
    {
        let ghost t = self.tables();
        let mut next_tables: Vec<Vec<StdFr2>> = Vec::new();
        for k in 0..self.d
            invariant
                self.wf(),
                t == self.tables(),
                2 * next_hypercube_size <= usize::MAX,
                tables_min_len(t, 2 * next_hypercube_size as nat),
                next_tables@.len() == k,
                forall|kk: int| 0 <= kk < k ==> table_values(#[trigger] next_tables@[kk]@) == fold_prefix(
                    table_values(t[kk]),
                    challenge.value() as int,
                    next_hypercube_size as nat,
                ),
                forall|kk: int, i: int|
                    0 <= kk < k && 0 <= i < next_tables@[kk]@.len() ==> (#[trigger] next_tables@[kk]@[i]).is_canonical(),
        {
            let mut row = vec![StdFr2::zero(); next_hypercube_size];
            for xp in 0..next_hypercube_size
                invariant
                    self.wf(),
                    t == self.tables(),
                    0 <= k < self.d,
                    2 * next_hypercube_size <= usize::MAX,
                    tables_min_len(t, 2 * next_hypercube_size as nat),
                    row@.len() == next_hypercube_size,
                    forall|i: int| 0 <= i < row@.len() ==> (#[trigger] row@[i]).is_canonical(),
                    forall|i: int| 0 <= i < xp ==> (#[trigger] row@[i]).value() == fold_prefix(
                        table_values(t[k as int]),
                        challenge.value() as int,
                        next_hypercube_size as nat,
                    )[i],
            {
                proof {
                    lemma_pair_index(xp);
                    assert(t[k as int] == self.list_of_arrays@[k as int]@);
                }
                let i0 = xp << 1;
                let i1 = i0 | 1;
                let p0 = self.list_of_arrays[k][i0];
                let p1 = self.list_of_arrays[k][i1];
                let delta = p1.sub(&p0);
                let scaled = delta.mul_bb(&challenge);
                let folded = scaled.add(&p0);
                proof {
                    lemma_term_value(
                        p0.value(),
                        p1.value(),
                        delta.value(),
                        challenge.value(),
                        scaled.value(),
                        folded.value(),
                    );
                }
                row.set(xp, folded);
            }
            proof {
                assert(table_values(row@) =~= fold_prefix(
                    table_values(t[k as int]),
                    challenge.value() as int,
                    next_hypercube_size as nat,
                ));
            }
            next_tables.push(row);
        }
        self.list_of_arrays = next_tables;
        proof {
            assert forall|kk: int, i: int|
                0 <= kk < self.tables().len() && 0 <= i < self.tables()[kk].len() implies (
                #[trigger] self.tables()[kk][i]).is_canonical() by {
                assert(self.tables()[kk] == next_tables@[kk]@);
            }
            assert forall|kk: int| 0 <= kk < t.len() implies table_values(#[trigger] self.tables()[kk])
                == fold_prefix(table_values(t[kk]), challenge.value() as int, next_hypercube_size as nat) by {
                assert(self.tables()[kk] == next_tables@[kk]@);
            }
            // The folded tables sum, over the smaller hypercube, to the round polynomial at
            // the challenge.
            let tv = tables_values(t);
            assert(tables_values(self.tables()) =~= fold_tables(tv, challenge.value() as int, next_hypercube_size as nat));
            assert forall|kk: int| 0 <= kk < tv.len() implies (#[trigger] tv[kk]).len() >= 2 * next_hypercube_size by {
                assert(tv[kk] == table_values(t[kk]));
            }
            crate::completeness::lemma_table_sum_folded(tv, challenge.value() as int, next_hypercube_size as nat);
        }
    }
}

// ================================================================================
// Verifier
// ================================================================================

pub struct BigIntVerifier {
    d: usize,
    s_i_evals: Vec<StdFr2>,
    pub challenges: Vec<StdFr2>,
}

impl BigIntVerifier {
    /// The number of polynomials in the product.
    pub closed spec fn degree(&self) -> nat {
        self.d as nat
    }

    /// The challenges sent so far, in order.
    pub closed spec fn challenge_seq(&self) -> Seq<StdFr2> {
        self.challenges@
    }

    /// The last round message received: s_i on U_d_hat.
    pub closed spec fn message(&self) -> Seq<StdFr2> {
        self.s_i_evals@
    }

    pub fn new(d: usize) -> (r: Self)
        ensures
            r.degree() == d,
            r.message().len() == 0,
            r.challenge_seq().len() == 0,
    {
        BigIntVerifier { d, s_i_evals: Vec::new(), challenges: Vec::new() }
    }

    /// Receives the round message s_i on U_d_hat.
    pub fn add_s_i(&mut self, s_i: Vec<StdFr2>)
        ensures
            final(self).message() == s_i@,
            final(self).degree() == old(self).degree(),
            final(self).challenge_seq() == old(self).challenge_seq(),
    {
        self.s_i_evals = s_i;
    }

    /// s_i(0), reconstructed from the running claim c_i = s_i(0) + s_i(1): c_i - s_i(1)
    /// for d >= 2; for d = 1 the message holds s_i(inf) alone, s_i(1) = s_i(0) + s_i(inf),
    /// and s_i(0) = (c_i - s_i(inf)) / 2.
    pub fn compute_s_i_0(&self, c_i: StdFr2) -> (r: StdFr2)
        requires
            self.message().len() >= 2 || (self.degree() < 2 && self.message().len() >= 1),
            forall|i: int| 0 <= i < self.message().len() ==> (#[trigger] self.message()[i]).is_canonical(),
            c_i.is_canonical(),
        ensures
            r.is_canonical(),
            r.value() == reconstruct_s0(elems_values(self.message()), c_i.value() as int, self.degree()),
    {
        if self.d >= 2 {
            let s_i_1 = self.s_i_evals[1];
            proof {
                lemma_fe_sub_md(c_i.value(), s_i_1.value());
            }
            c_i.sub(&s_i_1)
        } else {
            let s_inf = self.s_i_evals[0];
            let half = StdFr2(HALF);
            let diff = c_i.sub(&s_inf);
            proof {
                crate::field_math::lemma_half_val();
                lemma_fe_sub_md(c_i.value(), s_inf.value());
                crate::field_math::lemma_md_canonical(half_inv());
                crate::field_math::lemma_fe_mul_md(diff.value(), half.value(), c_i.value() - s_inf.value(), half_inv() as int);
            }
            diff.mul_bb(&half)
        }
    }

    /// Records the round challenge, drawn uniformly from the field by the caller.
    pub fn send_challenge(&mut self, r: StdFr2) -> (out: StdFr2)
        ensures
            out == r,
            final(self).challenge_seq() == old(self).challenge_seq().push(r),
            final(self).degree() == old(self).degree(),
            final(self).message() == old(self).message(),
    {
        self.challenges.push(r);
        r
    }

    /// Lemma 2 (Lagrange interpolation with the point at infinity): combines s_i(inf)
    /// with the vanishing product, plus the classical Lagrange sum over the d finite
    /// points (0, reconstructed, and 1..d-1, sent by the prover).
    pub fn update_c_i(&self, challenge: StdFr2, s_i_0: StdFr2) -> (c: StdFr2)
        requires
            self.degree() >= 1,
            self.message().len() >= self.degree(),
            forall|i: int| 0 <= i < self.message().len() ==> (#[trigger] self.message()[i]).is_canonical(),
            challenge.is_canonical(),
            s_i_0.is_canonical(),
        ensures
            c.is_canonical(),
            c.value() == interpolate(
                elems_values(self.message()),
                s_i_0.value() as int,
                challenge.value() as int,
                self.degree(),
            ),
    {
        let ghost msg = elems_values(self.message());
        let ghost r = challenge.value() as int;
        let ghost dd = self.d as nat;
        let mut classical_points = vec![StdFr2::zero(); self.d];
        let mut classical_values = vec![StdFr2::zero(); self.d];
        classical_points.set(0, StdFr2::zero());
        classical_values.set(0, s_i_0);
        for v in 1..self.d
            invariant
                dd == self.d,
                msg == elems_values(self.message()),
                self.message().len() >= self.degree(),
                forall|i: int| 0 <= i < self.message().len() ==> (#[trigger] self.message()[i]).is_canonical(),
                s_i_0.is_canonical(),
                classical_points@.len() == self.d,
                classical_values@.len() == self.d,
                forall|i: int| 0 <= i < v ==> (#[trigger] classical_points@[i]).value() == i,
                forall|i: int| 0 <= i < v ==> (#[trigger] classical_points@[i]).is_canonical(),
                forall|i: int| 0 <= i < v ==> (#[trigger] classical_values@[i]).value() == node_value(
                    msg,
                    s_i_0.value() as int,
                    i,
                ),
                forall|i: int| 0 <= i < v ==> (#[trigger] classical_values@[i]).is_canonical(),
        {
            classical_points.set(v, StdFr2::from_u64(v as u64));
            classical_values.set(v, self.s_i_evals[v]);
        }
        let s_inf = self.s_i_evals[0];
        let mut vanishing = StdFr2::one();
        proof {
            crate::field_math::lemma_md_canonical(1);
        }
        for k in 0..self.d
            invariant
                dd == self.d,
                challenge.is_canonical(),
                r == challenge.value(),
                classical_points@.len() == self.d,
                forall|i: int| 0 <= i < self.d ==> (#[trigger] classical_points@[i]).value() == i,
                forall|i: int| 0 <= i < self.d ==> (#[trigger] classical_points@[i]).is_canonical(),
                vanishing.is_canonical(),
                vanishing.value() == md(vanishing_prod(r, k as nat)),
        {
            let x_k = classical_points[k];
            let diff = challenge.sub(&x_k);
            proof {
                lemma_fe_sub_md(challenge.value(), x_k.value());
                lemma_fe_mul_md(vanishing.value(), diff.value(), vanishing_prod(r, k as nat), r - k);
                lemma_seq_prod_new_step(k as nat, |kk: int| r - kk);
            }
            vanishing = vanishing.mul_bb(&diff);
        }
        let mut lagrange_sum = StdFr2::zero();
        proof {
            crate::field_math::lemma_md_canonical(0);
        }
        for i in 0..self.d
            invariant
                dd == self.d,
                msg == elems_values(self.message()),
                challenge.is_canonical(),
                r == challenge.value(),
                classical_points@.len() == self.d,
                classical_values@.len() == self.d,
                forall|j: int| 0 <= j < self.d ==> (#[trigger] classical_points@[j]).value() == j,
                forall|j: int| 0 <= j < self.d ==> (#[trigger] classical_points@[j]).is_canonical(),
                forall|j: int| 0 <= j < self.d ==> (#[trigger] classical_values@[j]).value() == node_value(
                    msg,
                    s_i_0.value() as int,
                    j,
                ),
                forall|j: int| 0 <= j < self.d ==> (#[trigger] classical_values@[j]).is_canonical(),
                lagrange_sum.is_canonical(),
                lagrange_sum.value() == md(lagrange_partial(msg, s_i_0.value() as int, r, dd, i as nat)),
        {
            let x_i = classical_points[i];
            let mut numerator = StdFr2::one();
            let mut denominator = StdFr2::one();
            proof {
                crate::field_math::lemma_md_canonical(1);
            }
            for j in 0..self.d
                invariant
                    dd == self.d,
                    0 <= i < self.d,
                    challenge.is_canonical(),
                    r == challenge.value(),
                    x_i.value() == i,
                    x_i.is_canonical(),
                    classical_points@.len() == self.d,
                    forall|jj: int| 0 <= jj < self.d ==> (#[trigger] classical_points@[jj]).value() == jj,
                    forall|jj: int| 0 <= jj < self.d ==> (#[trigger] classical_points@[jj]).is_canonical(),
                    numerator.is_canonical(),
                    denominator.is_canonical(),
                    numerator.value() == md(basis_num(r, i as int, j as nat)),
                    denominator.value() == md(basis_den(i as int, j as nat)),
            {
                proof {
                    lemma_basis_step(r, i as int, j as nat);
                }
                if i != j {
                    let x_j = classical_points[j];
                    let num_factor = challenge.sub(&x_j);
                    let den_factor = x_i.sub(&x_j);
                    proof {
                        lemma_fe_sub_md(challenge.value(), x_j.value());
                        lemma_fe_sub_md(x_i.value(), x_j.value());
                        lemma_fe_mul_md(numerator.value(), num_factor.value(), basis_num(r, i as int, j as nat), r - j);
                        lemma_fe_mul_md(denominator.value(), den_factor.value(), basis_den(i as int, j as nat), i - j);
                    }
                    numerator = numerator.mul_bb(&num_factor);
                    denominator = denominator.mul_bb(&den_factor);
                }
            }
            let den_inv = denominator.inverse();
            let coeff = numerator.mul_bb(&den_inv);
            let term = classical_values[i].mul_bb(&coeff);
            proof {
                let inv = fe_inv(md(basis_den(i as int, dd)) as nat);
                crate::field_math::lemma_md_range(basis_den(i as int, dd));
                crate::field_math::lemma_md_canonical(den_inv.value());
                lemma_fe_mul_md(numerator.value(), den_inv.value(), basis_num(r, i as int, dd), inv as int);
                crate::field_math::lemma_md_canonical(classical_values@[i as int].value());
                lemma_fe_mul_md(
                    classical_values@[i as int].value(),
                    coeff.value(),
                    node_value(msg, s_i_0.value() as int, i as int),
                    lagrange_coeff(r, i as int, dd),
                );
                lemma_fe_add_md(
                    lagrange_sum.value(),
                    term.value(),
                    lagrange_partial(msg, s_i_0.value() as int, r, dd, i as nat),
                    node_value(msg, s_i_0.value() as int, i as int) * lagrange_coeff(r, i as int, dd),
                );
                crate::field_math::lemma_seq_sum_new_step(
                    i as nat,
                    |ii: int| node_value(msg, s_i_0.value() as int, ii) * lagrange_coeff(r, ii, dd),
                );
            }
            lagrange_sum = lagrange_sum.add(&term);
        }
        let lead = s_inf.mul_bb(&vanishing);
        proof {
            crate::field_math::lemma_md_canonical(s_inf.value());
            lemma_fe_mul_md(s_inf.value(), vanishing.value(), msg[0], vanishing_prod(r, dd));
            lemma_fe_add_md(
                lead.value(),
                lagrange_sum.value(),
                msg[0] * vanishing_prod(r, dd),
                lagrange_partial(msg, s_i_0.value() as int, r, dd, dd),
            );
        }
        lead.add(&lagrange_sum)
    }

    /// Final oracle check: evaluates each polynomial's initial evaluations at the
    /// accumulated challenges by multilinear interpolation, and compares the product
    /// with c_i.
    pub fn final_check(&self, initial_arrays: &[Vec<StdFr2>], c_i: StdFr2) -> (ok: bool)
        requires
            forall|k: int| 0 <= k < initial_arrays@.len() ==> (#[trigger] initial_arrays@[k])@.len()
                >= vstd::arithmetic::power2::pow2(self.challenge_seq().len()),
            forall|k: int, x: int|
                0 <= k < initial_arrays@.len() && 0 <= x < initial_arrays@[k]@.len() ==> (
                #[trigger] initial_arrays@[k]@[x]).is_canonical(),
        ensures
            ok == (md(seq_prod(Seq::new(initial_arrays@.len(), |k: int| mle_eval(
                table_values(initial_arrays@[k]@),
                elems_values(self.challenge_seq()),
            )))) == c_i.value()),
    {
        let mut product = StdFr2::one();
        proof {
            crate::field_math::lemma_md_canonical(1);
        }
        for k in 0..initial_arrays.len()
            invariant
                forall|kk: int| 0 <= kk < initial_arrays@.len() ==> (#[trigger] initial_arrays@[kk])@.len()
                    >= vstd::arithmetic::power2::pow2(self.challenge_seq().len()),
                forall|kk: int, x: int|
                    0 <= kk < initial_arrays@.len() && 0 <= x < initial_arrays@[kk]@.len() ==> (
                    #[trigger] initial_arrays@[kk]@[x]).is_canonical(),
                product.is_canonical(),
                product.value() == md(seq_prod(Seq::new(k as nat, |kk: int| mle_eval(
                    table_values(initial_arrays@[kk]@),
                    elems_values(self.challenge_seq()),
                )))),
        {
            let val = evaluate_mle(initial_arrays[k].as_slice(), self.challenges.as_slice());
            proof {
                crate::field_math::lemma_md_canonical(val.value());
                lemma_fe_mul_md(
                    product.value(),
                    val.value(),
                    seq_prod(Seq::new(k as nat, |kk: int| mle_eval(
                        table_values(initial_arrays@[kk]@),
                        elems_values(self.challenge_seq()),
                    ))),
                    mle_eval(table_values(initial_arrays@[k as int]@), elems_values(self.challenge_seq())),
                );
                lemma_seq_prod_new_step(k as nat, |kk: int| mle_eval(
                    table_values(initial_arrays@[kk]@),
                    elems_values(self.challenge_seq()),
                ));
            }
            product = product.mul_bb(&val);
        }
        proof {
            crate::bigint_field::lemma_eq_spec_value(product, c_i);
        }
        product == c_i
    }
}

/// Evaluates the multilinear extension of `evals` at `challenges` by folding the
/// table once per challenge.
fn evaluate_mle(evals: &[StdFr2], challenges: &[StdFr2]) -> (r: StdFr2)
    requires
        evals@.len() >= vstd::arithmetic::power2::pow2(challenges@.len()),
        forall|x: int| 0 <= x < evals@.len() ==> (#[trigger] evals@[x]).is_canonical(),
    ensures
        r.is_canonical(),
        r.value() == mle_eval(table_values(evals@), elems_values(challenges@)),
{
    let ghost s = table_values(evals@);
    let ghost rs = elems_values(challenges@);
    let mut current = vstd::slice::slice_to_vec(evals);
    proof {
        assert(rs.take(0) =~= Seq::<int>::empty());
        assert(table_values(current@) =~= fold_all(s, rs.take(0)));
        lemma_fold_all_len(s, rs);
    }
    for idx in 0..challenges.len()
        invariant
            s == table_values(evals@),
            rs == elems_values(challenges@),
            table_values(current@) == fold_all(s, rs.take(idx as int)),
            forall|x: int| 0 <= x < current@.len() ==> (#[trigger] current@[x]).is_canonical(),
            current@.len() >= vstd::arithmetic::power2::pow2((challenges@.len() - idx) as nat),
    {
        let r = challenges[idx];
        let len = current.len();
        let half = len / 2;
        let mut next = vec![StdFr2::zero(); half];
        for i in 0..half
            invariant
                len == current@.len(),
                half == current@.len() / 2,
                next@.len() == half,
                forall|x: int| 0 <= x < current@.len() ==> (#[trigger] current@[x]).is_canonical(),
                forall|x: int| 0 <= x < next@.len() ==> (#[trigger] next@[x]).is_canonical(),
                forall|x: int| 0 <= x < i ==> (#[trigger] next@[x]).value() == fold_once(
                    table_values(current@),
                    r.value() as int,
                )[x],
        {
            proof {
                assert(2 * i + 1 < current@.len());
            }
            let p0 = current[2 * i];
            let p1 = current[2 * i + 1];
            let delta = p1.sub(&p0);
            let scaled = delta.mul_bb(&r);
            let folded = scaled.add(&p0);
            proof {
                lemma_term_value(p0.value(), p1.value(), delta.value(), r.value(), scaled.value(), folded.value());
            }
            next.set(i, folded);
        }
        proof {
            assert(table_values(next@) =~= fold_once(table_values(current@), r.value() as int));
            lemma_fold_all_push(s, rs.take(idx as int), rs[idx as int]);
            assert(rs.take(idx + 1) =~= rs.take(idx as int).push(rs[idx as int]));
            vstd::arithmetic::power2::lemma_pow2_unfold((challenges@.len() - idx) as nat);
        }
        current = next;
    }
    proof {
        assert(rs.take(challenges@.len() as int) =~= rs);
        vstd::arithmetic::power2::lemma_pow2_pos(0);
        vstd::arithmetic::power2::lemma2_to64();
    }
    current[0]
}

/// 2^m computed by a shift, and half of it.
pub proof fn lemma_round_size(m: usize)
    requires
        1 <= m < usize::BITS,
    ensures
        (1usize << m) == vstd::arithmetic::power2::pow2(m as nat),
        (1usize << m) / 2 == vstd::arithmetic::power2::pow2((m - 1) as nat),
        2 * ((1usize << m) / 2) == vstd::arithmetic::power2::pow2(m as nat),
        2 * ((1usize << m) / 2) <= usize::MAX,
{
    vstd::bits::lemma_usize_pow2_no_overflow(m as nat);
    vstd::bits::lemma_usize_shl_is_mul(1, m);
    vstd::arithmetic::power2::lemma_pow2_unfold(m as nat);
}

/// A copy of the tables, entry by entry.
fn copy_tables(t: &Vec<Vec<StdFr2>>) -> (r: Vec<Vec<StdFr2>>)
    ensures
        r@.len() == t@.len(),
        forall|k: int| 0 <= k < t@.len() ==> (#[trigger] r@[k])@ == t@[k]@,
{
    let mut r: Vec<Vec<StdFr2>> = Vec::new();
    for k in 0..t.len()
        invariant
            r@.len() == k,
            forall|kk: int| 0 <= kk < k ==> (#[trigger] r@[kk])@ == t@[kk]@,
    {
        let mut row: Vec<StdFr2> = Vec::new();
        let n = t[k].len();
        for x in 0..n
            invariant
                n == t@[k as int]@.len(),
                0 <= k < t@.len(),
                row@ == t@[k as int]@.take(x as int),
        {
            row.push(t[k][x]);
            proof {
                assert(row@ =~= t@[k as int]@.take(x + 1));
            }
        }
        proof {
            assert(row@ =~= t@[k as int]@);
        }
        r.push(row);
    }
    r
}

/// Vanilla: the round message is computed with `compute_s_i` at every round.
pub fn bigint_linear_time_sc_vanilla_with_challenges(list_of_arrays: Vec<Vec<StdFr2>>, sumcheck_claim: StdFr2, challenges: &[StdFr2]) -> (accepted: bool)
    requires
        list_of_arrays@.len() >= 1,
        challenges@.len() < usize::BITS,
        forall|k: int| 0 <= k < list_of_arrays@.len() ==> (#[trigger] list_of_arrays@[k])@.len()
            == vstd::arithmetic::power2::pow2(challenges@.len()),
        forall|k: int, x: int|
            0 <= k < list_of_arrays@.len() && 0 <= x < list_of_arrays@[k]@.len() ==> (
            #[trigger] list_of_arrays@[k]@[x]).is_canonical(),
        forall|i: int| 0 <= i < challenges@.len() ==> (#[trigger] challenges@[i]).is_canonical(),
        sumcheck_claim.is_canonical(),
    ensures
        accepted == (oracle_value(tables_values(list_of_arrays@.map_values(|v: Vec<StdFr2>| v@)), elems_values(challenges@))
            == claim_after(
            tables_values(list_of_arrays@.map_values(|v: Vec<StdFr2>| v@)),
            sumcheck_claim.value() as int,
            elems_values(challenges@),
        )),
        fermat_holds() && sumcheck_claim.value() == md(table_sum(
            tables_values(list_of_arrays@.map_values(|v: Vec<StdFr2>| v@)),
            vstd::arithmetic::power2::pow2(challenges@.len()),
        )) ==> accepted,
        fermat_holds() && sumcheck_claim.value() != md(table_sum(
            tables_values(list_of_arrays@.map_values(|v: Vec<StdFr2>| v@)),
            vstd::arithmetic::power2::pow2(challenges@.len()),
        )) && avoids_nodes(elems_values(challenges@), list_of_arrays@.len()) ==> !accepted,
{
    let num_vars = challenges.len();
    let d = list_of_arrays.len();
    let initial = copy_tables(&list_of_arrays);
    let ghost l0 = list_of_arrays@;
    let ghost t0 = tables_values(list_of_arrays@.map_values(|v: Vec<StdFr2>| v@));
    let ghost rs = elems_values(challenges@);
    let mut prover = BigIntProver::new(list_of_arrays);
    let mut verifier = BigIntVerifier::new(d);
    let mut c_i = sumcheck_claim;
    proof {
        assert(rs.skip(0) =~= rs);
        assert(prover.wf());
    }
    for round in 0..num_vars
        invariant
            num_vars == challenges@.len(),
            num_vars < usize::BITS,
            rs == elems_values(challenges@),
            forall|i: int| 0 <= i < challenges@.len() ==> (#[trigger] challenges@[i]).is_canonical(),
            prover.wf(),
            prover.tables().len() == d,
            d >= 1,
            verifier.degree() == d,
            verifier.challenge_seq() == challenges@.take(round as int),
            tables_min_len(prover.tables(), vstd::arithmetic::power2::pow2((num_vars - round) as nat)),
            c_i.is_canonical(),
            claim_after(tables_values(prover.tables()), c_i.value() as int, rs.skip(round as int))
                == claim_after(t0, sumcheck_claim.value() as int, rs),
    {
        proof {
            lemma_round_size((num_vars - round) as usize);
        }
        let next_hyp = (1usize << (num_vars - round)) / 2;
        let s_i = prover.compute_s_i(next_hyp);
        verifier.add_s_i(s_i);
        let s_i_0 = verifier.compute_s_i_0(c_i);
        let challenge = verifier.send_challenge(challenges[round]);
        proof {
            let tv = tables_values(prover.tables());
            let rest = rs.skip(round as int);
            assert(rest[0] == challenge.value());
            assert(rest.drop_first() =~= rs.skip(round + 1));
            assert(elems_values(verifier.message()) =~= round_message(tv, next_hyp as nat));
            assert(challenges@.take(round + 1) =~= challenges@.take(round as int).push(challenges@[round as int]));
        }
        c_i = verifier.update_c_i(challenge, s_i_0);
        let ghost before = tables_values(prover.tables());
        prover.update_p_arrays(next_hyp, challenge);
        proof {
            assert(tables_values(prover.tables()) =~= fold_tables(before, challenge.value() as int, next_hyp as nat));
            assert forall|k: int| 0 <= k < prover.tables().len() implies (#[trigger] prover.tables()[k]).len()
                >= vstd::arithmetic::power2::pow2((num_vars - (round + 1)) as nat) by {
                assert(table_values(prover.tables()[k]).len() == prover.tables()[k].len());
            }
        }
    }
    proof {
        assert(verifier.challenge_seq() =~= challenges@);
        assert(rs.skip(num_vars as int).len() == 0);
        assert forall|k: int| 0 <= k < initial@.len() implies (#[trigger] initial@[k])@.len()
            >= vstd::arithmetic::power2::pow2(verifier.challenge_seq().len()) by {
            assert(initial@[k]@ == list_of_arrays@[k]@);
        }
        assert(Seq::new(initial@.len(), |k: int| mle_eval(table_values(initial@[k]@), rs)) =~= Seq::new(
            t0.len(),
            |k: int| mle_eval(t0[k], rs),
        ));
    }
    let accepted = verifier.final_check(initial.as_slice(), c_i);
    proof {
        let tv = tables_values(list_of_arrays@.map_values(|v: Vec<StdFr2>| v@));
        if fermat_holds() {
            assert forall|k: int| 0 <= k < tv.len() implies (#[trigger] tv[k]).len()
                == vstd::arithmetic::power2::pow2(challenges@.len()) by {
                assert(tv[k] == table_values(list_of_arrays@[k]@));
            }
            lemma_honest_claim_accepted(tv, elems_values(challenges@));
            lemma_field_point_of(challenges@);
            if sumcheck_claim.value() != md(table_sum(tv, vstd::arithmetic::power2::pow2(challenges@.len())))
                && avoids_nodes(elems_values(challenges@), tv.len()) {
                crate::soundness::lemma_false_claim_rejected_any_degree(
                    tv,
                    sumcheck_claim.value() as int,
                    elems_values(challenges@),
                );
            }
        }
    }
    accepted
}

/// 1-sb: round 0 uses the small-big `compute_s_i_sb`, the following rounds `compute_s_i`.
pub fn bigint_linear_time_sc_sb1_with_challenges(list_of_arrays: Vec<Vec<StdFr2>>, sumcheck_claim: StdFr2, challenges: &[StdFr2]) -> (accepted: bool)
    requires
        list_of_arrays@.len() >= 1,
        1 <= challenges@.len() < usize::BITS,
        forall|k: int| 0 <= k < list_of_arrays@.len() ==> (#[trigger] list_of_arrays@[k])@.len()
            == vstd::arithmetic::power2::pow2(challenges@.len()),
        forall|k: int, x: int|
            0 <= k < list_of_arrays@.len() && 0 <= x < list_of_arrays@[k]@.len() ==> (
            #[trigger] list_of_arrays@[k]@[x]).is_canonical(),
        forall|i: int| 0 <= i < challenges@.len() ==> (#[trigger] challenges@[i]).is_canonical(),
        sumcheck_claim.is_canonical(),
    ensures
        accepted == (oracle_value(tables_values(list_of_arrays@.map_values(|v: Vec<StdFr2>| v@)), elems_values(challenges@))
            == claim_after(
            tables_values(list_of_arrays@.map_values(|v: Vec<StdFr2>| v@)),
            sumcheck_claim.value() as int,
            elems_values(challenges@),
        )),
        fermat_holds() && sumcheck_claim.value() == md(table_sum(
            tables_values(list_of_arrays@.map_values(|v: Vec<StdFr2>| v@)),
            vstd::arithmetic::power2::pow2(challenges@.len()),
        )) ==> accepted,
        fermat_holds() && sumcheck_claim.value() != md(table_sum(
            tables_values(list_of_arrays@.map_values(|v: Vec<StdFr2>| v@)),
            vstd::arithmetic::power2::pow2(challenges@.len()),
        )) && avoids_nodes(elems_values(challenges@), list_of_arrays@.len()) ==> !accepted,
{
    let num_vars = challenges.len();
    let d = list_of_arrays.len();
    let initial = copy_tables(&list_of_arrays);
    let ghost l0 = list_of_arrays@;
    let ghost t0 = tables_values(list_of_arrays@.map_values(|v: Vec<StdFr2>| v@));
    let ghost rs = elems_values(challenges@);
    let mut prover = BigIntProver::new(list_of_arrays);
    let mut verifier = BigIntVerifier::new(d);
    let mut c_i = sumcheck_claim;
    proof {
        assert(rs.skip(0) =~= rs);
        assert(prover.wf());
    }
    proof {
        lemma_round_size(num_vars as usize);
    }
    let next_hyp_0 = (1usize << num_vars) / 2;
    let s_0 = prover.compute_s_i_sb(next_hyp_0);
    verifier.add_s_i(s_0);
    let s_0_0 = verifier.compute_s_i_0(c_i);
    let challenge = verifier.send_challenge(challenges[0]);
    proof {
        let tv = tables_values(prover.tables());
        let rest = rs.skip(0);
        assert(rest[0] == challenge.value());
        assert(rest.drop_first() =~= rs.skip(1));
        assert(elems_values(verifier.message()) =~= round_message(tv, next_hyp_0 as nat));
        assert(challenges@.take(1) =~= challenges@.take(0).push(challenges@[0]));
    }
    c_i = verifier.update_c_i(challenge, s_0_0);
    let ghost before = tables_values(prover.tables());
    prover.update_p_arrays(next_hyp_0, challenge);
    proof {
        assert(tables_values(prover.tables()) =~= fold_tables(before, challenge.value() as int, next_hyp_0 as nat));
        assert forall|k: int| 0 <= k < prover.tables().len() implies (#[trigger] prover.tables()[k]).len()
            >= vstd::arithmetic::power2::pow2((num_vars - (1)) as nat) by {
            assert(table_values(prover.tables()[k]).len() == prover.tables()[k].len());
        }
    }
    for round in 1..num_vars
        invariant
            1 <= round <= num_vars,
            num_vars == challenges@.len(),
            num_vars < usize::BITS,
            rs == elems_values(challenges@),
            forall|i: int| 0 <= i < challenges@.len() ==> (#[trigger] challenges@[i]).is_canonical(),
            prover.wf(),
            prover.tables().len() == d,
            d >= 1,
            verifier.degree() == d,
            verifier.challenge_seq() == challenges@.take(round as int),
            tables_min_len(prover.tables(), vstd::arithmetic::power2::pow2((num_vars - round) as nat)),
            c_i.is_canonical(),
            claim_after(tables_values(prover.tables()), c_i.value() as int, rs.skip(round as int))
                == claim_after(t0, sumcheck_claim.value() as int, rs),
    {
        proof {
            lemma_round_size((num_vars - round) as usize);
        }
        let next_hyp = (1usize << (num_vars - round)) / 2;
        let s_i = prover.compute_s_i(next_hyp);
        verifier.add_s_i(s_i);
        let s_i_0 = verifier.compute_s_i_0(c_i);
        let challenge = verifier.send_challenge(challenges[round]);
        proof {
            let tv = tables_values(prover.tables());
            let rest = rs.skip(round as int);
            assert(rest[0] == challenge.value());
            assert(rest.drop_first() =~= rs.skip(round + 1));
            assert(elems_values(verifier.message()) =~= round_message(tv, next_hyp as nat));
            assert(challenges@.take(round + 1) =~= challenges@.take(round as int).push(challenges@[round as int]));
        }
        c_i = verifier.update_c_i(challenge, s_i_0);
        let ghost before = tables_values(prover.tables());
        prover.update_p_arrays(next_hyp, challenge);
        proof {
            assert(tables_values(prover.tables()) =~= fold_tables(before, challenge.value() as int, next_hyp as nat));
            assert forall|k: int| 0 <= k < prover.tables().len() implies (#[trigger] prover.tables()[k]).len()
                >= vstd::arithmetic::power2::pow2((num_vars - (round + 1)) as nat) by {
                assert(table_values(prover.tables()[k]).len() == prover.tables()[k].len());
            }
        }
    }
    proof {
        assert(verifier.challenge_seq() =~= challenges@);
        assert(rs.skip(num_vars as int).len() == 0);
        assert forall|k: int| 0 <= k < initial@.len() implies (#[trigger] initial@[k])@.len()
            >= vstd::arithmetic::power2::pow2(verifier.challenge_seq().len()) by {
            assert(initial@[k]@ == list_of_arrays@[k]@);
        }
        assert(Seq::new(initial@.len(), |k: int| mle_eval(table_values(initial@[k]@), rs)) =~= Seq::new(
            t0.len(),
            |k: int| mle_eval(t0[k], rs),
        ));
    }
    let accepted = verifier.final_check(initial.as_slice(), c_i);
    proof {
        let tv = tables_values(list_of_arrays@.map_values(|v: Vec<StdFr2>| v@));
        if fermat_holds() {
            assert forall|k: int| 0 <= k < tv.len() implies (#[trigger] tv[k]).len()
                == vstd::arithmetic::power2::pow2(challenges@.len()) by {
                assert(tv[k] == table_values(list_of_arrays@[k]@));
            }
            lemma_honest_claim_accepted(tv, elems_values(challenges@));
            lemma_field_point_of(challenges@);
            if sumcheck_claim.value() != md(table_sum(tv, vstd::arithmetic::power2::pow2(challenges@.len())))
                && avoids_nodes(elems_values(challenges@), tv.len()) {
                crate::soundness::lemma_false_claim_rejected_any_degree(
                    tv,
                    sumcheck_claim.value() as int,
                    elems_values(challenges@),
                );
            }
        }
    }
    accepted
}

/// sb-all: the round message is computed with the small-big `compute_s_i_sb` at every round.
pub fn bigint_linear_time_sc_sb_all_with_challenges(list_of_arrays: Vec<Vec<StdFr2>>, sumcheck_claim: StdFr2, challenges: &[StdFr2]) -> (accepted: bool)
    requires
        list_of_arrays@.len() >= 1,
        challenges@.len() < usize::BITS,
        forall|k: int| 0 <= k < list_of_arrays@.len() ==> (#[trigger] list_of_arrays@[k])@.len()
            == vstd::arithmetic::power2::pow2(challenges@.len()),
        forall|k: int, x: int|
            0 <= k < list_of_arrays@.len() && 0 <= x < list_of_arrays@[k]@.len() ==> (
            #[trigger] list_of_arrays@[k]@[x]).is_canonical(),
        forall|i: int| 0 <= i < challenges@.len() ==> (#[trigger] challenges@[i]).is_canonical(),
        sumcheck_claim.is_canonical(),
    ensures
        accepted == (oracle_value(tables_values(list_of_arrays@.map_values(|v: Vec<StdFr2>| v@)), elems_values(challenges@))
            == claim_after(
            tables_values(list_of_arrays@.map_values(|v: Vec<StdFr2>| v@)),
            sumcheck_claim.value() as int,
            elems_values(challenges@),
        )),
        fermat_holds() && sumcheck_claim.value() == md(table_sum(
            tables_values(list_of_arrays@.map_values(|v: Vec<StdFr2>| v@)),
            vstd::arithmetic::power2::pow2(challenges@.len()),
        )) ==> accepted,
        fermat_holds() && sumcheck_claim.value() != md(table_sum(
            tables_values(list_of_arrays@.map_values(|v: Vec<StdFr2>| v@)),
            vstd::arithmetic::power2::pow2(challenges@.len()),
        )) && avoids_nodes(elems_values(challenges@), list_of_arrays@.len()) ==> !accepted,
{
    let num_vars = challenges.len();
    let d = list_of_arrays.len();
    let initial = copy_tables(&list_of_arrays);
    let ghost l0 = list_of_arrays@;
    let ghost t0 = tables_values(list_of_arrays@.map_values(|v: Vec<StdFr2>| v@));
    let ghost rs = elems_values(challenges@);
    let mut prover = BigIntProver::new(list_of_arrays);
    let mut verifier = BigIntVerifier::new(d);
    let mut c_i = sumcheck_claim;
    proof {
        assert(rs.skip(0) =~= rs);
        assert(prover.wf());
    }
    for round in 0..num_vars
        invariant
            num_vars == challenges@.len(),
            num_vars < usize::BITS,
            rs == elems_values(challenges@),
            forall|i: int| 0 <= i < challenges@.len() ==> (#[trigger] challenges@[i]).is_canonical(),
            prover.wf(),
            prover.tables().len() == d,
            d >= 1,
            verifier.degree() == d,
            verifier.challenge_seq() == challenges@.take(round as int),
            tables_min_len(prover.tables(), vstd::arithmetic::power2::pow2((num_vars - round) as nat)),
            c_i.is_canonical(),
            claim_after(tables_values(prover.tables()), c_i.value() as int, rs.skip(round as int))
                == claim_after(t0, sumcheck_claim.value() as int, rs),
    {
        proof {
            lemma_round_size((num_vars - round) as usize);
        }
        let next_hyp = (1usize << (num_vars - round)) / 2;
        let s_i = prover.compute_s_i_sb(next_hyp);
        verifier.add_s_i(s_i);
        let s_i_0 = verifier.compute_s_i_0(c_i);
        let challenge = verifier.send_challenge(challenges[round]);
        proof {
            let tv = tables_values(prover.tables());
            let rest = rs.skip(round as int);
            assert(rest[0] == challenge.value());
            assert(rest.drop_first() =~= rs.skip(round + 1));
            assert(elems_values(verifier.message()) =~= round_message(tv, next_hyp as nat));
            assert(challenges@.take(round + 1) =~= challenges@.take(round as int).push(challenges@[round as int]));
        }
        c_i = verifier.update_c_i(challenge, s_i_0);
        let ghost before = tables_values(prover.tables());
        prover.update_p_arrays(next_hyp, challenge);
        proof {
            assert(tables_values(prover.tables()) =~= fold_tables(before, challenge.value() as int, next_hyp as nat));
            assert forall|k: int| 0 <= k < prover.tables().len() implies (#[trigger] prover.tables()[k]).len()
                >= vstd::arithmetic::power2::pow2((num_vars - (round + 1)) as nat) by {
                assert(table_values(prover.tables()[k]).len() == prover.tables()[k].len());
            }
        }
    }
    proof {
        assert(verifier.challenge_seq() =~= challenges@);
        assert(rs.skip(num_vars as int).len() == 0);
        assert forall|k: int| 0 <= k < initial@.len() implies (#[trigger] initial@[k])@.len()
            >= vstd::arithmetic::power2::pow2(verifier.challenge_seq().len()) by {
            assert(initial@[k]@ == list_of_arrays@[k]@);
        }
        assert(Seq::new(initial@.len(), |k: int| mle_eval(table_values(initial@[k]@), rs)) =~= Seq::new(
            t0.len(),
            |k: int| mle_eval(t0[k], rs),
        ));
    }
    let accepted = verifier.final_check(initial.as_slice(), c_i);
    proof {
        let tv = tables_values(list_of_arrays@.map_values(|v: Vec<StdFr2>| v@));
        if fermat_holds() {
            assert forall|k: int| 0 <= k < tv.len() implies (#[trigger] tv[k]).len()
                == vstd::arithmetic::power2::pow2(challenges@.len()) by {
                assert(tv[k] == table_values(list_of_arrays@[k]@));
            }
            lemma_honest_claim_accepted(tv, elems_values(challenges@));
            lemma_field_point_of(challenges@);
            if sumcheck_claim.value() != md(table_sum(tv, vstd::arithmetic::power2::pow2(challenges@.len())))
                && avoids_nodes(elems_values(challenges@), tv.len()) {
                crate::soundness::lemma_false_claim_rejected_any_degree(
                    tv,
                    sumcheck_claim.value() as int,
                    elems_values(challenges@),
                );
            }
        }
    }
    accepted
}


/// `bigint_linear_time_sc_vanilla_with_challenges` on the whole tables of the stream, with
/// one challenge per variable drawn uniformly from the field. The true sum is accepted.
pub fn bigint_linear_time_sc_vanilla<S: PolynomialStream>(stream: &mut S, sumcheck_claim: StdFr2) -> (accepted: bool)
    requires
        tables_wf(old(stream).tables(), old(stream).vars()),
        old(stream).tables().len() >= 1,
        sumcheck_claim.is_canonical(),
    ensures
        final(stream).tables() == old(stream).tables(),
        final(stream).vars() == old(stream).vars(),
        fermat_holds() && sumcheck_claim.value() == md(
            table_sum(tables_values(old(stream).tables()), vstd::arithmetic::power2::pow2(old(stream).vars())),
        ) ==> accepted,
        exists|rs: Seq<int>|
            field_point(rs) && rs.len() == old(stream).vars() && accepted == #[trigger] verdict(
                tables_values(old(stream).tables()),
                sumcheck_claim.value() as int,
                rs,
            ),
        fermat_holds() && sumcheck_claim.value() != md(
            table_sum(tables_values(old(stream).tables()), vstd::arithmetic::power2::pow2(old(stream).vars())),
        ) && accepted ==> exists|rs: Seq<int>|
            #![trigger verdict(tables_values(old(stream).tables()), sumcheck_claim.value() as int, rs)]
            field_point(rs) && rs.len() == old(stream).vars() && verdict(
                tables_values(old(stream).tables()),
                sumcheck_claim.value() as int,
                rs,
            ) && !avoids_nodes(rs, old(stream).tables().len()),
{
    let ghost tv = tables_values(stream.tables());
    let list_of_arrays = read_all_tables(stream);
    let challenges = random_challenges(stream.num_vars());
    proof {
        assert(list_of_arrays@.map_values(|v: Vec<StdFr2>| v@) =~= stream.tables());
        assert forall|k: int, x: int|
            0 <= k < list_of_arrays@.len() && 0 <= x < list_of_arrays@[k]@.len() implies (
            #[trigger] list_of_arrays@[k]@[x]).is_canonical() by {
            assert(elems_canonical(stream.tables()[k]));
        }
        assert forall|i: int| 0 <= i < challenges@.len() implies (#[trigger] challenges@[i]).is_canonical() by {
            assert(elems_canonical(challenges@));
        }
    }
    let ghost lv = list_of_arrays@;
    let accepted = bigint_linear_time_sc_vanilla_with_challenges(list_of_arrays, sumcheck_claim, challenges.as_slice());
    proof {
        lemma_field_point_of(challenges@);
        assert(tables_values(lv.map_values(|v: Vec<StdFr2>| v@)) == tv);
        assert(accepted == verdict(tv, sumcheck_claim.value() as int, elems_values(challenges@)));
    }
    accepted
}

/// `bigint_linear_time_sc_sb1_with_challenges` on the whole tables of the stream, with
/// one challenge per variable drawn uniformly from the field. The true sum is accepted.
pub fn bigint_linear_time_sc_sb1<S: PolynomialStream>(stream: &mut S, sumcheck_claim: StdFr2) -> (accepted: bool)
    requires
        tables_wf(old(stream).tables(), old(stream).vars()),
        old(stream).tables().len() >= 1,
        1 <= old(stream).vars(),
        sumcheck_claim.is_canonical(),
    ensures
        final(stream).tables() == old(stream).tables(),
        final(stream).vars() == old(stream).vars(),
        fermat_holds() && sumcheck_claim.value() == md(
            table_sum(tables_values(old(stream).tables()), vstd::arithmetic::power2::pow2(old(stream).vars())),
        ) ==> accepted,
        exists|rs: Seq<int>|
            field_point(rs) && rs.len() == old(stream).vars() && accepted == #[trigger] verdict(
                tables_values(old(stream).tables()),
                sumcheck_claim.value() as int,
                rs,
            ),
        fermat_holds() && sumcheck_claim.value() != md(
            table_sum(tables_values(old(stream).tables()), vstd::arithmetic::power2::pow2(old(stream).vars())),
        ) && accepted ==> exists|rs: Seq<int>|
            #![trigger verdict(tables_values(old(stream).tables()), sumcheck_claim.value() as int, rs)]
            field_point(rs) && rs.len() == old(stream).vars() && verdict(
                tables_values(old(stream).tables()),
                sumcheck_claim.value() as int,
                rs,
            ) && !avoids_nodes(rs, old(stream).tables().len()),
{
    let ghost tv = tables_values(stream.tables());
    let list_of_arrays = read_all_tables(stream);
    let challenges = random_challenges(stream.num_vars());
    proof {
        assert(list_of_arrays@.map_values(|v: Vec<StdFr2>| v@) =~= stream.tables());
        assert forall|k: int, x: int|
            0 <= k < list_of_arrays@.len() && 0 <= x < list_of_arrays@[k]@.len() implies (
            #[trigger] list_of_arrays@[k]@[x]).is_canonical() by {
            assert(elems_canonical(stream.tables()[k]));
        }
        assert forall|i: int| 0 <= i < challenges@.len() implies (#[trigger] challenges@[i]).is_canonical() by {
            assert(elems_canonical(challenges@));
        }
    }
    let ghost lv = list_of_arrays@;
    let accepted = bigint_linear_time_sc_sb1_with_challenges(list_of_arrays, sumcheck_claim, challenges.as_slice());
    proof {
        lemma_field_point_of(challenges@);
        assert(tables_values(lv.map_values(|v: Vec<StdFr2>| v@)) == tv);
        assert(accepted == verdict(tv, sumcheck_claim.value() as int, elems_values(challenges@)));
    }
    accepted
}

/// `bigint_linear_time_sc_sb_all_with_challenges` on the whole tables of the stream, with
/// one challenge per variable drawn uniformly from the field. The true sum is accepted.
pub fn bigint_linear_time_sc_sb_all<S: PolynomialStream>(stream: &mut S, sumcheck_claim: StdFr2) -> (accepted: bool)
    requires
        tables_wf(old(stream).tables(), old(stream).vars()),
        old(stream).tables().len() >= 1,
        sumcheck_claim.is_canonical(),
    ensures
        final(stream).tables() == old(stream).tables(),
        final(stream).vars() == old(stream).vars(),
        fermat_holds() && sumcheck_claim.value() == md(
            table_sum(tables_values(old(stream).tables()), vstd::arithmetic::power2::pow2(old(stream).vars())),
        ) ==> accepted,
        exists|rs: Seq<int>|
            field_point(rs) && rs.len() == old(stream).vars() && accepted == #[trigger] verdict(
                tables_values(old(stream).tables()),
                sumcheck_claim.value() as int,
                rs,
            ),
        fermat_holds() && sumcheck_claim.value() != md(
            table_sum(tables_values(old(stream).tables()), vstd::arithmetic::power2::pow2(old(stream).vars())),
        ) && accepted ==> exists|rs: Seq<int>|
            #![trigger verdict(tables_values(old(stream).tables()), sumcheck_claim.value() as int, rs)]
            field_point(rs) && rs.len() == old(stream).vars() && verdict(
                tables_values(old(stream).tables()),
                sumcheck_claim.value() as int,
                rs,
            ) && !avoids_nodes(rs, old(stream).tables().len()),
{
    let ghost tv = tables_values(stream.tables());
    let list_of_arrays = read_all_tables(stream);
    let challenges = random_challenges(stream.num_vars());
    proof {
        assert(list_of_arrays@.map_values(|v: Vec<StdFr2>| v@) =~= stream.tables());
        assert forall|k: int, x: int|
            0 <= k < list_of_arrays@.len() && 0 <= x < list_of_arrays@[k]@.len() implies (
            #[trigger] list_of_arrays@[k]@[x]).is_canonical() by {
            assert(elems_canonical(stream.tables()[k]));
        }
        assert forall|i: int| 0 <= i < challenges@.len() implies (#[trigger] challenges@[i]).is_canonical() by {
            assert(elems_canonical(challenges@));
        }
    }
    let ghost lv = list_of_arrays@;
    let accepted = bigint_linear_time_sc_sb_all_with_challenges(list_of_arrays, sumcheck_claim, challenges.as_slice());
    proof {
        lemma_field_point_of(challenges@);
        assert(tables_values(lv.map_values(|v: Vec<StdFr2>| v@)) == tv);
        assert(accepted == verdict(tv, sumcheck_claim.value() as int, elems_values(challenges@)));
    }
    accepted
}

} // verus!
