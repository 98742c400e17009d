//! The prover of the linear-time sum-check on arkworks' `Fr`: bookkeeping tables
//! of the d multilinear polynomials, the round messages on U_d_hat, and the folding
//! of the tables with each challenge.
use crate::ark_field::{fr_add, fr_from_u64, fr_mul, fr_sub};
use crate::arithmetic::small_big_mul_raw;
use crate::bigint_field::{fe_mul, StdFr2};
use crate::engine::{get_u_hat_domain, u_hat_domain, EvaluationPoint};
use crate::field_math::{lemma_fe_add_md, lemma_fe_mul_md, lemma_fe_sub_md, lemma_md_canonical, lemma_seq_prod_new_step, lemma_seq_sum_new_step, md};
use crate::sumcheck_model::{
    fold_prefix,
    lemma_pair_index,
    lemma_term_value,
    pair_term,
    product_prefix,
    round_message,
    round_sum,
    table_values,
    tables_canonical,
    tables_min_len,
    tables_values,
};
use vstd::arithmetic::power2::pow2;
use vstd::prelude::*;

verus! {

/// The prover's state: one bookkeeping table per polynomial.
pub struct Prover {
    pub list_of_arrays: Vec<Vec<StdFr2>>,
    pub d: usize,
}

/// The size of the hypercube that remains after a round: 2^(num_vars - round - 1).
pub open spec fn next_size(num_vars: nat, round: nat) -> nat {
    pow2((num_vars - round) as nat) / 2
}

/// 2^m as a shift, and half of it.
pub proof fn lemma_shift_sizes(m: usize)
    requires
        m < usize::BITS,
    ensures
        (1usize << m) == pow2(m as nat),
        (1usize << m) / 2 == pow2(m as nat) / 2,
        2 * ((1usize << m) / 2) <= pow2(m as nat),
{
    vstd::bits::lemma_usize_pow2_no_overflow(m as nat);
    vstd::bits::lemma_usize_shl_is_mul(1, m);
    vstd::arithmetic::power2::lemma_pow2_pos(m as nat);
}

impl Prover {
    /// The bookkeeping tables as sequences.
    pub open spec fn tables(&self) -> Seq<Seq<StdFr2>> {
        self.list_of_arrays@.map_values(|v: Vec<StdFr2>| v@)
    }

    /// The degree field counts the tables, whose entries are canonical.
    pub open spec fn wf(&self) -> bool {
        &&& self.d == self.list_of_arrays@.len()
        &&& tables_canonical(self.tables())
    }

    /// A prover on copies of the polynomials' evaluation tables.
    pub fn new(list_of_poly: &[Vec<StdFr2>]) -> (r: Self)
        ensures
            r.tables() == list_of_poly@.map_values(|v: Vec<StdFr2>| v@),
            r.d == list_of_poly@.len(),
            r.wf() == tables_canonical(r.tables()),
    {
        let mut list_of_arrays: Vec<Vec<StdFr2>> = Vec::new();
        for k in 0..list_of_poly.len()
            invariant
                list_of_arrays@.len() == k,
                forall|kk: int| 0 <= kk < k ==> (#[trigger] list_of_arrays@[kk])@ == list_of_poly@[kk]@,
        {
            list_of_arrays.push(copy_table(&list_of_poly[k]));
        }
        let d = list_of_poly.len();
        let r = Prover { list_of_arrays, d };
        proof {
            assert(r.tables() =~= list_of_poly@.map_values(|v: Vec<StdFr2>| v@));
        }
        r
    }

    /// A prover on tables already folded over a window of variables.
    pub fn with_arrays(list_of_arrays: Vec<Vec<StdFr2>>) -> (r: Self)
        ensures
            r.tables() == list_of_arrays@.map_values(|v: Vec<StdFr2>| v@),
            r.d == list_of_arrays@.len(),
            r.wf() == tables_canonical(r.tables()),
    {
        let d = list_of_arrays.len();
        Prover { list_of_arrays, d }
    }

    /// The round message s_i on U_d_hat at round `round` of `num_vars`: for each point u,
    /// sum over the remaining hypercube of prod_k p_k(u, x).
    pub fn compute_s_i(&self, num_vars: usize, round: usize) -> (s_i: Vec<StdFr2>)
        requires
            self.wf(),
            self.d >= 1,
            round <= num_vars,
            tables_min_len(self.tables(), pow2((num_vars - round) as nat)),
        ensures
            s_i@.len() == self.d,
            forall|i: int| 0 <= i < s_i@.len() ==> (#[trigger] s_i@[i]).is_canonical(),
            forall|i: int| 0 <= i < s_i@.len() ==> (#[trigger] s_i@[i]).value()
                == round_message(tables_values(self.tables()), next_size(num_vars as nat, round as nat))[i],
    {
        proof {
            crate::sumcheck_model::lemma_vec_len_fits(self.list_of_arrays@[0]);
            assert(self.tables()[0] == self.list_of_arrays@[0]@);
            crate::sumcheck_model::lemma_pow2_fits((num_vars - round) as nat);
            lemma_shift_sizes((num_vars - round) as usize);
        }
        let current_hypercube_size = 1usize << (num_vars - round);
        let next_hypercube_size = current_hypercube_size / 2;
        proof {
            assert forall|k: int| 0 <= k < self.tables().len() implies (#[trigger] self.tables()[k]).len()
                >= 2 * next_hypercube_size by {}
        }
        let ghost t = tables_values(self.tables());
        let u_d_hat = get_u_hat_domain(self.d);
        let mut s_i = vec![StdFr2::zero(); self.d];
        for u_idx in 0..self.d
            invariant
                self.wf(),
                t == tables_values(self.tables()),
                t.len() >= 1,
                2 * next_hypercube_size <= usize::MAX,
                tables_min_len(self.tables(), 2 * next_hypercube_size as nat),
                u_d_hat@ == u_hat_domain(self.d as nat),
                s_i@.len() == self.d,
                forall|i: int| 0 <= i < s_i@.len() ==> (#[trigger] s_i@[i]).is_canonical(),
                forall|i: int| 0 <= i < u_idx ==> (#[trigger] s_i@[i]).value()
                    == round_message(t, next_hypercube_size as nat)[i],
        {
            let u = u_d_hat[u_idx];
            let mut sum = StdFr2::zero();
            let v_field = match u {
                EvaluationPoint::Infinity => None,
                EvaluationPoint::Value(v) => Some(fr_from_u64(v)),
            };
            proof {
                lemma_md_canonical(0);
            }
            for xp in 0..next_hypercube_size
                invariant
                    self.wf(),
                    t == tables_values(self.tables()),
                    0 <= u_idx < self.d,
                    u == u_hat_domain(self.d as nat)[u_idx as int],
                    2 * next_hypercube_size <= usize::MAX,
                    tables_min_len(self.tables(), 2 * next_hypercube_size as nat),
                    sum.is_canonical(),
                    sum.value() == md(round_sum(t, xp as nat, u)),
                    (u is Infinity) == (v_field is None),
                    v_field matches Some(vf) ==> (u matches EvaluationPoint::Value(v) && vf.value() == v),
            {
                let mut prod = StdFr2::one();
                proof {
                    lemma_pair_index(xp);
                    lemma_md_canonical(1);
                }
                let i0 = xp << 1;
                let i1 = i0 | 1;
                for k in 0..self.d
                    invariant
                        self.wf(),
                        t == tables_values(self.tables()),
                        0 <= xp < next_hypercube_size,
                        2 * next_hypercube_size <= usize::MAX,
                        tables_min_len(self.tables(), 2 * next_hypercube_size as nat),
                        i0 == 2 * xp,
                        i1 == 2 * xp + 1,
                        prod.is_canonical(),
                        prod.value() == md(product_prefix(t, xp as int, u, k as nat)),
                    (u is Infinity) == (v_field is None),
                    v_field matches Some(vf) ==> (u matches EvaluationPoint::Value(v) && vf.value() == v),
                {
                    proof {
                        assert(self.tables()[k as int] == self.list_of_arrays@[k as int]@);
                        assert(self.tables()[k as int].len() >= 2 * next_hypercube_size);
                    }
                    let p0 = self.list_of_arrays[k][i0];
                    let p1 = self.list_of_arrays[k][i1];
                    proof {
                        assert(p0.is_canonical() && p1.is_canonical());
                        assert(t[k as int][2 * xp] == p0.value());
                        assert(t[k as int][2 * xp + 1] == p1.value());
                    }
                    let delta = fr_sub(&p1, &p0);
                    let term = match v_field {
                        None => delta,
                        Some(vf) => fr_add(&fr_mul(&delta, &vf), &p0),
                    };
                    proof {
                        match u {
                            EvaluationPoint::Infinity => {
                                lemma_fe_sub_md(p1.value(), p0.value());
                            },
                            EvaluationPoint::Value(v) => {
                                lemma_term_value(
                                    p0.value(),
                                    p1.value(),
                                    delta.value(),
                                    v as nat,
                                    fe_mul(delta.value(), v as nat),
                                    term.value(),
                                );
                            },
                        }
                        assert(term.value() == md(pair_term(t, k as int, xp as int, u)));
                        lemma_fe_mul_md(
                            prod.value(),
                            term.value(),
                            product_prefix(t, xp as int, u, k as nat),
                            pair_term(t, k as int, xp as int, u),
                        );
                        lemma_seq_prod_new_step(k as nat, |kk: int| pair_term(t, kk, xp as int, u));
                    }
                    prod = fr_mul(&prod, &term);
                }
                proof {
                    lemma_fe_add_md(
                        sum.value(),
                        prod.value(),
                        round_sum(t, xp as nat, u),
                        product_prefix(t, xp as int, u, t.len()),
                    );
                    lemma_seq_sum_new_step(xp as nat, |x: int| product_prefix(t, x, u, t.len()));
                    assert(self.d == t.len());
                }
                sum = fr_add(&sum, &prod);
            }
            s_i.set(u_idx, sum);
        }
        s_i
    }

    /// The first round's message with the small-big multiplication: the scaling of
    /// p1 - p0 by a small point v uses `small_big_mul_raw`.
    pub fn compute_s_0_sb(&self, num_vars: usize) -> (s_i: Vec<StdFr2>)
        requires
            self.wf(),
            self.d >= 1,
            tables_min_len(self.tables(), pow2(num_vars as nat)),
        ensures
            s_i@.len() == self.d,
            forall|i: int| 0 <= i < s_i@.len() ==> (#[trigger] s_i@[i]).is_canonical(),
            forall|i: int| 0 <= i < s_i@.len() ==> (#[trigger] s_i@[i]).value()
                == round_message(tables_values(self.tables()), next_size(num_vars as nat, 0))[i],
    {
        proof {
            crate::sumcheck_model::lemma_vec_len_fits(self.list_of_arrays@[0]);
            assert(self.tables()[0] == self.list_of_arrays@[0]@);
            crate::sumcheck_model::lemma_pow2_fits(num_vars as nat);
            lemma_shift_sizes(num_vars);
        }
        let current_hypercube_size = 1usize << num_vars;
        let next_hypercube_size = current_hypercube_size / 2;
        proof {
            assert forall|k: int| 0 <= k < self.tables().len() implies (#[trigger] self.tables()[k]).len()
                >= 2 * next_hypercube_size by {}
        }
        let ghost t = tables_values(self.tables());
        let u_d_hat = get_u_hat_domain(self.d);
        let mut s_i = vec![StdFr2::zero(); self.d];
        for u_idx in 0..self.d
            invariant
                self.wf(),
                t == tables_values(self.tables()),
                t.len() >= 1,
                2 * next_hypercube_size <= usize::MAX,
                tables_min_len(self.tables(), 2 * next_hypercube_size as nat),
                u_d_hat@ == u_hat_domain(self.d as nat),
                s_i@.len() == self.d,
                forall|i: int| 0 <= i < s_i@.len() ==> (#[trigger] s_i@[i]).is_canonical(),
                forall|i: int| 0 <= i < u_idx ==> (#[trigger] s_i@[i]).value()
                    == round_message(t, next_hypercube_size as nat)[i],
        {
            let u = u_d_hat[u_idx];
            let mut sum = StdFr2::zero();
            proof {
                lemma_md_canonical(0);
            }
            for xp in 0..next_hypercube_size
                invariant
                    self.wf(),
                    t == tables_values(self.tables()),
                    0 <= u_idx < self.d,
                    u == u_hat_domain(self.d as nat)[u_idx as int],
                    2 * next_hypercube_size <= usize::MAX,
                    tables_min_len(self.tables(), 2 * next_hypercube_size as nat),
                    sum.is_canonical(),
                    sum.value() == md(round_sum(t, xp as nat, u)),
            {
                let mut prod = StdFr2::one();
                proof {
                    lemma_pair_index(xp);
                    lemma_md_canonical(1);
                }
                let i0 = xp << 1;
                let i1 = i0 | 1;
                for k in 0..self.d
                    invariant
                        self.wf(),
                        t == tables_values(self.tables()),
                        0 <= xp < next_hypercube_size,
                        2 * next_hypercube_size <= usize::MAX,
                        tables_min_len(self.tables(), 2 * next_hypercube_size as nat),
                        i0 == 2 * xp,
                        i1 == 2 * xp + 1,
                        prod.is_canonical(),
                        prod.value() == md(product_prefix(t, xp as int, u, k as nat)),
                {
                    proof {
                        assert(self.tables()[k as int] == self.list_of_arrays@[k as int]@);
                        assert(self.tables()[k as int].len() >= 2 * next_hypercube_size);
                    }
                    let p0 = self.list_of_arrays[k][i0];
                    let p1 = self.list_of_arrays[k][i1];
                    proof {
                        assert(p0.is_canonical() && p1.is_canonical());
                        assert(t[k as int][2 * xp] == p0.value());
                        assert(t[k as int][2 * xp + 1] == p1.value());
                    }
                    let delta = fr_sub(&p1, &p0);
                    let term = match u {
                        EvaluationPoint::Infinity => delta,
                        EvaluationPoint::Value(v) => fr_add(&small_big_mul_raw(v, &delta), &p0),
                    };
                    proof {
                        match u {
                            EvaluationPoint::Infinity => {
                                lemma_fe_sub_md(p1.value(), p0.value());
                            },
                            EvaluationPoint::Value(v) => {
                                lemma_term_value(
                                    p0.value(),
                                    p1.value(),
                                    delta.value(),
                                    v as nat,
                                    fe_mul(delta.value(), v as nat),
                                    term.value(),
                                );
                            },
                        }
                        assert(term.value() == md(pair_term(t, k as int, xp as int, u)));
                        lemma_fe_mul_md(
                            prod.value(),
                            term.value(),
                            product_prefix(t, xp as int, u, k as nat),
                            pair_term(t, k as int, xp as int, u),
                        );
                        lemma_seq_prod_new_step(k as nat, |kk: int| pair_term(t, kk, xp as int, u));
                    }
                    prod = fr_mul(&prod, &term);
                }
                proof {
                    lemma_fe_add_md(
                        sum.value(),
                        prod.value(),
                        round_sum(t, xp as nat, u),
                        product_prefix(t, xp as int, u, t.len()),
                    );
                    lemma_seq_sum_new_step(xp as nat, |x: int| product_prefix(t, x, u, t.len()));
                    assert(self.d == t.len());
                }
                sum = fr_add(&sum, &prod);
            }
            s_i.set(u_idx, sum);
        }
        s_i
    }

    /// Folds every table with the challenge: entry x becomes p(2x) + r (p(2x+1) - p(2x)).
    pub fn update_p_arrays(&mut self, num_vars: usize, round: usize, challenge: StdFr2)
        requires
            old(self).wf(),
            challenge.is_canonical(),
            round <= num_vars,
            num_vars - round < usize::BITS,
            tables_min_len(old(self).tables(), pow2((num_vars - round) as nat)),
        ensures
            final(self).wf(),
            final(self).tables().len() == old(self).tables().len(),
            forall|k: int|
                0 <= k < old(self).tables().len() ==> table_values(#[trigger] final(self).tables()[k])
                    == fold_prefix(
                    table_values(old(self).tables()[k]),
                    challenge.value() as int,
                    next_size(num_vars as nat, round as nat),
                ),
    {
        proof {
            lemma_shift_sizes((num_vars - round) as usize);
        }
        let current_hypercube_size = 1usize << (num_vars - round);
        let next_hypercube_size = current_hypercube_size / 2;
        proof {
            assert forall|k: int| 0 <= k < self.tables().len() implies (#[trigger] self.tables()[k]).len()
                >= 2 * next_hypercube_size by {}
        }
        let ghost t = self.tables();
        let mut next_tables: Vec<Vec<StdFr2>> = Vec::new();
        for k in 0..self.d
            invariant
                self.wf(),
                challenge.is_canonical(),
                t == self.tables(),
                2 * next_hypercube_size <= usize::MAX,
                tables_min_len(t, 2 * next_hypercube_size as nat),
                next_tables@.len() == k,
                forall|kk: int| 0 <= kk < k ==> table_values(#[trigger] next_tables@[kk]@) == fold_prefix(
                    table_values(t[kk]),
                    challenge.value() as int,
                    next_hypercube_size as nat,
                ),
                forall|kk: int, i: int|
                    0 <= kk < k && 0 <= i < next_tables@[kk]@.len() ==> (#[trigger] next_tables@[kk]@[i]).is_canonical(),
        {
            let mut row = vec![StdFr2::zero(); next_hypercube_size];
            for xp in 0..next_hypercube_size
                invariant
                    self.wf(),
                    challenge.is_canonical(),
                    t == self.tables(),
                    0 <= k < self.d,
                    2 * next_hypercube_size <= usize::MAX,
                    tables_min_len(t, 2 * next_hypercube_size as nat),
                    row@.len() == next_hypercube_size,
                    forall|i: int| 0 <= i < row@.len() ==> (#[trigger] row@[i]).is_canonical(),
                    forall|i: int| 0 <= i < xp ==> (#[trigger] row@[i]).value() == fold_prefix(
                        table_values(t[k as int]),
                        challenge.value() as int,
                        next_hypercube_size as nat,
                    )[i],
            {
                proof {
                    lemma_pair_index(xp);
                    assert(t[k as int] == self.list_of_arrays@[k as int]@);
                }
                let i0 = xp << 1;
                let i1 = i0 | 1;
                let p0 = self.list_of_arrays[k][i0];
                let p1 = self.list_of_arrays[k][i1];
                let delta = fr_sub(&p1, &p0);
                let scaled = fr_mul(&delta, &challenge);
                let folded = fr_add(&scaled, &p0);
                proof {
                    lemma_term_value(
                        p0.value(),
                        p1.value(),
                        delta.value(),
                        challenge.value(),
                        scaled.value(),
                        folded.value(),
                    );
                }
                row.set(xp, folded);
            }
            proof {
                assert(table_values(row@) =~= fold_prefix(
                    table_values(t[k as int]),
                    challenge.value() as int,
                    next_hypercube_size as nat,
                ));
            }
            next_tables.push(row);
        }
        self.list_of_arrays = next_tables;
        proof {
            assert forall|kk: int, i: int|
                0 <= kk < self.tables().len() && 0 <= i < self.tables()[kk].len() implies (
                #[trigger] self.tables()[kk][i]).is_canonical() by {
                assert(self.tables()[kk] == next_tables@[kk]@);
            }
            assert forall|kk: int| 0 <= kk < t.len() implies table_values(#[trigger] self.tables()[kk])
                == fold_prefix(table_values(t[kk]), challenge.value() as int, next_hypercube_size as nat) by {
                assert(self.tables()[kk] == next_tables@[kk]@);
            }
        }
    }
}

/// A copy of a table, entry by entry.
fn copy_table(t: &Vec<StdFr2>) -> (r: Vec<StdFr2>)
    ensures
        r@ == t@,
{
    let mut row: Vec<StdFr2> = Vec::new();
    for x in 0..t.len()
        invariant
            row@ == t@.take(x as int),
    {
        row.push(t[x]);
        proof {
            assert(row@ =~= t@.take(x + 1));
        }
    }
    proof {
        assert(row@ =~= t@);
    }
    row
}

} // verus!
