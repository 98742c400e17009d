//! The verifier of the linear-time sum-check on arkworks' `Fr`: it records the round
//! messages and challenges, reconstructs s_i(0) from the running claim, interpolates
//! s_i at the challenge (Lagrange with the point at infinity), and checks the final
//! claim against the product of the multilinear extensions at the challenges.
use crate::ark_field::{fr_add, fr_from_u64, fr_inverse, fr_mul, fr_random, fr_sub, mle_evaluate};
use crate::bigint_field::{fe_sub, StdFr2};
use crate::field_math::{lemma_fe_add_md, lemma_fe_mul_md, lemma_fe_sub_md, lemma_seq_prod_new_step, md, seq_prod};
use crate::poly::{
    basis_den,
    basis_num,
    denominators_invertible,
    field_inv,
    lagrange_coeff_inv,
    lemma_basis_step,
    lemma_field_inv_unique,
    vanishing_prod,
};
use crate::sumcheck_model::{elems_values, interpolate_inv, lagrange_partial_inv, mle_eval, node_value, table_values};
use vstd::arithmetic::power2::pow2;
use vstd::prelude::*;

verus! {

/// The verifier's state.
pub struct Verifier {
    pub challenges: Vec<StdFr2>,
    pub s_i_received: Option<Vec<StdFr2>>,
    pub d: usize,
}

/// Every element of the sequence is canonical.
pub open spec fn elems_canonical(s: Seq<StdFr2>) -> bool {
    forall|i: int| 0 <= i < s.len() ==> (#[trigger] s[i]).is_canonical()
}

impl Verifier {
    /// A verifier for a product of d polynomials, with no message or challenge yet.
    pub fn new(d: usize) -> (r: Self)
        ensures
            r.d == d,
            r.challenges@.len() == 0,
            r.s_i_received is None,
    {
        Verifier { challenges: Vec::new(), s_i_received: None, d }
    }

    /// Receives the round message s_i on U_d_hat.
    pub fn add_s_i(&mut self, s_i: Vec<StdFr2>)
        ensures
            final(self).s_i_received == Some(s_i),
            final(self).d == old(self).d,
            final(self).challenges@ == old(self).challenges@,
    {
        self.s_i_received = Some(s_i);
    }

    /// Records the round challenge r_i, drawn uniformly from the field by the caller,
    /// and hands it back.
    pub fn send_challenge(&mut self, r_i: StdFr2) -> (out: StdFr2)
        ensures
            out == r_i,
            final(self).challenges@ == old(self).challenges@.push(r_i),
            final(self).d == old(self).d,
            final(self).s_i_received == old(self).s_i_received,
    {
        self.challenges.push(r_i);
        r_i
    }

    /// s_i(0) = C_{i-1} - s_i(1), where s_i(1) is entry 1 of the message on U_d_hat.
    pub fn compute_s_i_0(&self, c_minus_1: StdFr2) -> (r: StdFr2)
        requires
            self.s_i_received matches Some(s) && s@.len() >= 2 && elems_canonical(s@),
            c_minus_1.is_canonical(),
        ensures
            r.is_canonical(),
            r.value() == fe_sub(c_minus_1.value(), self.s_i_received->0@[1].value()),
    {
        let s_i = self.s_i_received.as_ref().unwrap();
        let s_i_1 = s_i[1];
        fr_sub(&c_minus_1, &s_i_1)
    }

    /// C_i = s_i(r_i) by Lemma 2: s_i(inf) times prod_k (r_i - x_k) plus the Lagrange
    /// combination of s_i at the d finite points 0 (reconstructed), 1, ..., d-1.
    pub fn update_c_i(&self, challenge: StdFr2, s_i_0: StdFr2) -> (c: StdFr2)
        requires
            self.d >= 1,
            denominators_invertible(self.d as nat),
            self.s_i_received matches Some(s) && s@.len() >= self.d && elems_canonical(s@),
            challenge.is_canonical(),
            s_i_0.is_canonical(),
        ensures
            c.is_canonical(),
            c.value() == interpolate_inv(
                elems_values(self.s_i_received->0@),
                s_i_0.value() as int,
                challenge.value() as int,
                self.d as nat,
            ),
    {
        let s_i_evals = self.s_i_received.as_ref().unwrap();
        let ghost msg_seq = s_i_evals@;
        let ghost msg = elems_values(msg_seq);
        let ghost r = challenge.value() as int;
        let ghost dd = self.d as nat;
        let mut classical_points = vec![StdFr2::zero(); self.d];
        let mut classical_values = vec![StdFr2::zero(); self.d];
        classical_points.set(0, StdFr2::zero());
        classical_values.set(0, s_i_0);
        for v in 1..self.d
            invariant
                dd == self.d,
                msg == elems_values(msg_seq),
                msg_seq == s_i_evals@,
                msg_seq.len() >= self.d,
                forall|i: int| 0 <= i < msg_seq.len() ==> (#[trigger] msg_seq[i]).is_canonical(),
                s_i_0.is_canonical(),
                classical_points@.len() == self.d,
                classical_values@.len() == self.d,
                forall|i: int| 0 <= i < v ==> (#[trigger] classical_points@[i]).value() == i,
                forall|i: int| 0 <= i < v ==> (#[trigger] classical_points@[i]).is_canonical(),
                forall|i: int| 0 <= i < v ==> (#[trigger] classical_values@[i]).value() == node_value(
                    msg,
                    s_i_0.value() as int,
                    i,
                ),
                forall|i: int| 0 <= i < v ==> (#[trigger] classical_values@[i]).is_canonical(),
        {
            classical_points.set(v, fr_from_u64(v as u64));
            classical_values.set(v, s_i_evals[v]);
        }
        let s_inf = s_i_evals[0];
        let mut vanishing = StdFr2::one();
        proof {
            crate::field_math::lemma_md_canonical(1);
        }
        for k in 0..self.d
            invariant
                dd == self.d,
                challenge.is_canonical(),
                r == challenge.value(),
                classical_points@.len() == self.d,
                forall|i: int| 0 <= i < self.d ==> (#[trigger] classical_points@[i]).value() == i,
                forall|i: int| 0 <= i < self.d ==> (#[trigger] classical_points@[i]).is_canonical(),
                vanishing.is_canonical(),
                vanishing.value() == md(vanishing_prod(r, k as nat)),
        {
            let x_k = classical_points[k];
            let diff = fr_sub(&challenge, &x_k);
            proof {
                lemma_fe_sub_md(challenge.value(), x_k.value());
                lemma_fe_mul_md(vanishing.value(), diff.value(), vanishing_prod(r, k as nat), r - k);
                lemma_seq_prod_new_step(k as nat, |kk: int| r - kk);
            }
            vanishing = fr_mul(&vanishing, &diff);
        }
        let mut lagrange_sum = StdFr2::zero();
        proof {
            crate::field_math::lemma_md_canonical(0);
        }
        for i in 0..self.d
            invariant
                dd == self.d,
                msg == elems_values(msg_seq),
                challenge.is_canonical(),
                r == challenge.value(),
                classical_points@.len() == self.d,
                classical_values@.len() == self.d,
                forall|j: int| 0 <= j < self.d ==> (#[trigger] classical_points@[j]).value() == j,
                forall|j: int| 0 <= j < self.d ==> (#[trigger] classical_points@[j]).is_canonical(),
                forall|j: int| 0 <= j < self.d ==> (#[trigger] classical_values@[j]).value() == node_value(
                    msg,
                    s_i_0.value() as int,
                    j,
                ),
                forall|j: int| 0 <= j < self.d ==> (#[trigger] classical_values@[j]).is_canonical(),
                denominators_invertible(dd),
                lagrange_sum.is_canonical(),
                lagrange_sum.value() == md(lagrange_partial_inv(msg, s_i_0.value() as int, r, dd, i as nat)),
        {
            let x_i = classical_points[i];
            let mut numerator = StdFr2::one();
            let mut denominator = StdFr2::one();
            proof {
                crate::field_math::lemma_md_canonical(1);
            }
            for j in 0..self.d
                invariant
                    dd == self.d,
                    0 <= i < self.d,
                    challenge.is_canonical(),
                    r == challenge.value(),
                    x_i.value() == i,
                    x_i.is_canonical(),
                    classical_points@.len() == self.d,
                    forall|jj: int| 0 <= jj < self.d ==> (#[trigger] classical_points@[jj]).value() == jj,
                    forall|jj: int| 0 <= jj < self.d ==> (#[trigger] classical_points@[jj]).is_canonical(),
                    numerator.is_canonical(),
                    denominator.is_canonical(),
                    numerator.value() == md(basis_num(r, i as int, j as nat)),
                    denominator.value() == md(basis_den(i as int, j as nat)),
            {
                proof {
                    lemma_basis_step(r, i as int, j as nat);
                }
                if i != j {
                    let x_j = classical_points[j];
                    let num_factor = fr_sub(&challenge, &x_j);
                    let den_factor = fr_sub(&x_i, &x_j);
                    proof {
                        lemma_fe_sub_md(challenge.value(), x_j.value());
                        lemma_fe_sub_md(x_i.value(), x_j.value());
                        lemma_fe_mul_md(numerator.value(), num_factor.value(), basis_num(r, i as int, j as nat), r - j);
                        lemma_fe_mul_md(denominator.value(), den_factor.value(), basis_den(i as int, j as nat), i - j);
                    }
                    numerator = fr_mul(&numerator, &num_factor);
                    denominator = fr_mul(&denominator, &den_factor);
                }
            }
            proof {
                assert(denominator.value() != 0);
            }
            let den_inv = fr_inverse(&denominator).unwrap();
            proof {
                lemma_field_inv_unique(denominator.value(), den_inv.value());
            }
            let coeff = fr_mul(&numerator, &den_inv);
            let term = fr_mul(&classical_values[i], &coeff);
            proof {
                let inv = field_inv(md(basis_den(i as int, dd)) as nat);
                crate::field_math::lemma_md_range(basis_den(i as int, dd));
                crate::field_math::lemma_md_canonical(den_inv.value());
                lemma_fe_mul_md(numerator.value(), den_inv.value(), basis_num(r, i as int, dd), inv as int);
                crate::field_math::lemma_md_canonical(classical_values@[i as int].value());
                lemma_fe_mul_md(
                    classical_values@[i as int].value(),
                    coeff.value(),
                    node_value(msg, s_i_0.value() as int, i as int),
                    lagrange_coeff_inv(r, i as int, dd),
                );
                lemma_fe_add_md(
                    lagrange_sum.value(),
                    term.value(),
                    lagrange_partial_inv(msg, s_i_0.value() as int, r, dd, i as nat),
                    node_value(msg, s_i_0.value() as int, i as int) * lagrange_coeff_inv(r, i as int, dd),
                );
                crate::field_math::lemma_seq_sum_new_step(
                    i as nat,
                    |ii: int| node_value(msg, s_i_0.value() as int, ii) * lagrange_coeff_inv(r, ii, dd),
                );
            }
            lagrange_sum = fr_add(&lagrange_sum, &term);
        }
        let lead = fr_mul(&s_inf, &vanishing);
        proof {
            crate::field_math::lemma_md_canonical(s_inf.value());
            lemma_fe_mul_md(s_inf.value(), vanishing.value(), msg[0], vanishing_prod(r, dd));
            lemma_fe_add_md(
                lead.value(),
                lagrange_sum.value(),
                msg[0] * vanishing_prod(r, dd),
                lagrange_partial_inv(msg, s_i_0.value() as int, r, dd, dd),
            );
        }
        fr_add(&lead, &lagrange_sum)
    }

    /// The final oracle check: the product of the polynomials' multilinear extensions at
    /// the challenges equals the last claim.
    pub fn final_check(&self, list_of_poly: &[Vec<StdFr2>], c_l: StdFr2) -> (ok: bool)
        requires
            list_of_poly@.len() == self.d,
            self.challenges@.len() < usize::BITS,
            elems_canonical(self.challenges@),
            forall|k: int| 0 <= k < list_of_poly@.len() ==> (#[trigger] list_of_poly@[k])@.len()
                == pow2(self.challenges@.len()),
            forall|k: int| 0 <= k < list_of_poly@.len() ==> elems_canonical(#[trigger] list_of_poly@[k]@),
        ensures
            ok == (md(seq_prod(Seq::new(list_of_poly@.len(), |k: int| mle_eval(
                table_values(list_of_poly@[k]@),
                elems_values(self.challenges@),
            )))) == c_l.value()),
    {
        let mut g_eval = StdFr2::one();
        proof {
            crate::field_math::lemma_md_canonical(1);
        }
        for k in 0..list_of_poly.len()
            invariant
                self.challenges@.len() < usize::BITS,
                elems_canonical(self.challenges@),
                forall|kk: int| 0 <= kk < list_of_poly@.len() ==> (#[trigger] list_of_poly@[kk])@.len()
                    == pow2(self.challenges@.len()),
                forall|kk: int| 0 <= kk < list_of_poly@.len() ==> elems_canonical(#[trigger] list_of_poly@[kk]@),
                g_eval.is_canonical(),
                g_eval.value() == md(seq_prod(Seq::new(k as nat, |kk: int| mle_eval(
                    table_values(list_of_poly@[kk]@),
                    elems_values(self.challenges@),
                )))),
        {
            let p_k_eval = mle_evaluate(list_of_poly[k].as_slice(), self.challenges.as_slice());
            proof {
                crate::field_math::lemma_md_canonical(p_k_eval.value());
                lemma_fe_mul_md(
                    g_eval.value(),
                    p_k_eval.value(),
                    seq_prod(Seq::new(k as nat, |kk: int| mle_eval(
                        table_values(list_of_poly@[kk]@),
                        elems_values(self.challenges@),
                    ))),
                    mle_eval(table_values(list_of_poly@[k as int]@), elems_values(self.challenges@)),
                );
                lemma_seq_prod_new_step(k as nat, |kk: int| mle_eval(
                    table_values(list_of_poly@[kk]@),
                    elems_values(self.challenges@),
                ));
            }
            g_eval = fr_mul(&g_eval, &p_k_eval);
        }
        proof {
            crate::bigint_field::lemma_eq_spec_value(g_eval, c_l);
        }
        g_eval == c_l
    }
}

/// The verifier's challenges for `n` rounds, each drawn uniformly from the field.
pub fn random_challenges(n: usize) -> (r: Vec<StdFr2>)
    ensures
        r@.len() == n,
        elems_canonical(r@),
{
    let mut challenges: Vec<StdFr2> = Vec::new();
    for i in 0..n
        invariant
            challenges@.len() == i,
            elems_canonical(challenges@),
    {
        challenges.push(fr_random());
    }
    challenges
}

} // verus!
