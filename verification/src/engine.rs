//! Evaluation domains of the round polynomials: the extended grid U_d = {inf, 0, ..., d-1}
//! and its restriction U_d_hat = {inf, 1, ..., d-1}.
use crate::ark_field::{fr_add, fr_from_u64, fr_inverse, fr_mul, fr_sub};
use crate::bigint_field::{fe_add, fe_mul, fe_sub, modulus, StdFr2};
use crate::field_math::{lemma_fe_add_md, lemma_fe_mul_md, lemma_fe_sub_md, lemma_md_canonical, lemma_md_mul, lemma_seq_prod_new_step, lemma_seq_sum_new_step, md, seq_sum};
use crate::poly::{basis_den, basis_num, coef, denominators_invertible, fermat_holds, lagrange_coeff, lemma_basis_den_nonzero, lemma_field_inv_fermat, lemma_lagrange_infinity, lemma_pshift, peval, pshift, field_inv, lagrange_coeff_inv, lemma_basis_step, lemma_field_inv_unique, num_factors, vanishing_prod};
use crate::sc_verifier::elems_canonical;
use crate::arithmetic::{extrapolate_dot_product, lemma_adaptive_is_dot, DELAYED_REDUCTION_THRESHOLD};
use crate::sumcheck_model::{polys_values, table_values as values_of, elems_values, fold_all, fold_once, fold_prefix, lemma_fold_all_push, lemma_pair_index, mle_eval, table_values};
use vstd::arithmetic::power::pow;
use vstd::arithmetic::power2::pow2;
use vstd::prelude::*;

verus! {

/// `usize::pow`: base^exp, which the caller keeps within `usize`.
pub assume_specification[usize::pow](base: usize, exp: u32) -> (r: usize)
    requires
        pow(base as int, exp as nat) <= usize::MAX,
    ensures
        r == pow(base as int, exp as nat),
;

/// A point of an evaluation domain: the point at infinity (standing for the leading
/// coefficient) or a small integer.
#[derive(Copy, Clone, Debug, PartialEq, Eq, Structural)]
pub enum EvaluationPoint {
    Infinity,
    Value(u64),
}

/// U_d = { inf, 0, 1, ..., d-1 } as a sequence.
pub open spec fn u_domain(d: nat) -> Seq<EvaluationPoint> {
    Seq::new(d + 1, |i: int| if i == 0 { EvaluationPoint::Infinity } else { EvaluationPoint::Value((i - 1) as u64) })
}

/// U_d_hat = { inf, 1, ..., d-1 } as a sequence (at least the point at infinity).
pub open spec fn u_hat_domain(d: nat) -> Seq<EvaluationPoint> {
    Seq::new(if d == 0 { 1 } else { d }, |i: int| if i == 0 { EvaluationPoint::Infinity } else { EvaluationPoint::Value(i as u64) })
}

/// Generates the full extended grid domain U_d = { inf, 0, 1, ..., d-1 }.
pub fn get_u_domain(d: usize) -> (domain: Vec<EvaluationPoint>)
    requires
        d < usize::MAX,
    ensures
        domain@ == u_domain(d as nat),
{
    let mut domain = Vec::with_capacity(d + 1);
    domain.push(EvaluationPoint::Infinity);
    for val in 0..d
        invariant
            domain@ == u_domain(val as nat).take(val + 1),
            domain@.len() == val + 1,
    {
        domain.push(EvaluationPoint::Value(val as u64));
        proof {
            assert(domain@ =~= u_domain((val + 1) as nat).take(val + 2));
        }
    }
    proof {
        assert(domain@ =~= u_domain(d as nat));
    }
    domain
}

/// Generates the restricted domain U_d_hat = { inf, 1, ..., d-1 }, on which the round
/// polynomials s_i are sent.
pub fn get_u_hat_domain(d: usize) -> (domain: Vec<EvaluationPoint>)
    ensures
        domain@ == u_hat_domain(d as nat),
{
    let mut domain = Vec::with_capacity(d);
    domain.push(EvaluationPoint::Infinity);
    proof {
        assert(domain@ =~= u_hat_domain(d as nat).take(1));
        assert(d <= 1 ==> domain@ =~= u_hat_domain(d as nat));
    }
    let mut val: usize = 1;
    while val < d
        invariant
            1 <= val,
            val < d ==> domain@ == u_hat_domain(d as nat).take(val as int),
            val >= d ==> domain@ == u_hat_domain(d as nat),
        decreases d - val,
    {
        domain.push(EvaluationPoint::Value(val as u64));
        proof {
            assert(domain@ =~= u_hat_domain(d as nat).take(val + 1));
        }
        val = val + 1;
    }
    domain
}

// ================================================================================
// Folding with challenges.
// ================================================================================

/// p0 + r (p1 - p0) in the field is the reduced integer combination.
proof fn lemma_fold_value(p0: nat, p1: nat, r: nat, delta: nat, scaled: nat, folded: nat)
    requires
        p0 < modulus(),
        p1 < modulus(),
        r < modulus(),
        delta == fe_sub(p1, p0),
        scaled == fe_mul(r, delta),
        folded == fe_add(p0, scaled),
    ensures
        folded == md(p0 + r * (p1 - p0)),
{
    lemma_fe_sub_md(p1, p0);
    lemma_md_canonical(r);
    lemma_fe_mul_md(r, delta, r as int, p1 - p0);
    lemma_md_canonical(p0);
    lemma_fe_add_md(p0, scaled, p0 as int, r * (p1 - p0));
}

/// Folds a chunk of 2^w evaluations down to one value with the window's challenges
/// r_1, ..., r_w: the multilinear extension of the chunk at (r_1, ..., r_w).
pub fn fold_hypercube_chunk(chunk: &[StdFr2], challenges: &[StdFr2]) -> (r: StdFr2)
    requires
        challenges@.len() < usize::BITS,
        chunk@.len() == pow2(challenges@.len()),
        elems_canonical(chunk@),
        elems_canonical(challenges@),
    ensures
        r.is_canonical(),
        r.value() == mle_eval(table_values(chunk@), elems_values(challenges@)),
{
    let omega_1 = challenges.len();
    let ghost s = table_values(chunk@);
    let ghost rs = elems_values(challenges@);
    let mut working_buffer = vstd::slice::slice_to_vec(chunk);
    proof {
        assert(working_buffer@.take(pow2(omega_1 as nat) as int) =~= chunk@);
        assert(rs.take(0) =~= Seq::<int>::empty());
        assert(table_values(working_buffer@.take(pow2(omega_1 as nat) as int)) =~= fold_all(s, rs.take(0)));
    }
    for round in 0..omega_1
        invariant
            omega_1 == challenges@.len(),
            omega_1 < usize::BITS,
            s == table_values(chunk@),
            rs == elems_values(challenges@),
            elems_canonical(challenges@),
            working_buffer@.len() == chunk@.len(),
            chunk@.len() == pow2(omega_1 as nat),
            elems_canonical(working_buffer@),
            table_values(working_buffer@.take(pow2((omega_1 - round) as nat) as int)) == fold_all(s, rs.take(round as int)),
    {
        proof {
            vstd::bits::lemma_usize_pow2_no_overflow((omega_1 - round) as nat);
            vstd::bits::lemma_usize_shl_is_mul(1, (omega_1 - round) as usize);
            vstd::arithmetic::power2::lemma_pow2_unfold((omega_1 - round) as nat);
            if round > 0 {
                vstd::arithmetic::power2::lemma_pow2_strictly_increases((omega_1 - round) as nat, omega_1 as nat);
            }
        }
        let current_size = 1usize << (omega_1 - round);
        let next_size = current_size / 2;
        let r = challenges[round];
        let ghost prev = working_buffer@;
        let ghost cur = table_values(prev.take(current_size as int));
        proof {
            assert(current_size <= prev.len()) by {
                if round == 0 {
                } else {
                    vstd::arithmetic::power2::lemma_pow2_strictly_increases((omega_1 - round) as nat, omega_1 as nat);
                }
            }
        }
        for idx in 0..next_size
            invariant
                next_size == current_size / 2,
                current_size <= prev.len(),
                current_size == 2 * next_size,
                cur == table_values(prev.take(current_size as int)),
                elems_canonical(prev),
                r.is_canonical(),
                working_buffer@.len() == prev.len(),
                elems_canonical(working_buffer@),
                forall|j: int| idx <= j < prev.len() ==> #[trigger] working_buffer@[j] == prev[j],
                forall|j: int| 0 <= j < idx ==> (#[trigger] working_buffer@[j]).value() == fold_once(cur, r.value() as int)[j],
        {
            proof {
                lemma_pair_index(idx);
            }
            let p0 = working_buffer[idx << 1];
            let p1 = working_buffer[(idx << 1) | 1];
            let delta = fr_sub(&p1, &p0);
            let scaled = fr_mul(&r, &delta);
            let folded = fr_add(&p0, &scaled);
            proof {
                lemma_fold_value(p0.value(), p1.value(), r.value(), delta.value(), scaled.value(), folded.value());
                assert(cur[2 * idx] == p0.value());
                assert(cur[2 * idx + 1] == p1.value());
            }
            working_buffer.set(idx, folded);
        }
        proof {
            assert(table_values(working_buffer@.take(next_size as int)) =~= fold_once(cur, r.value() as int));
            lemma_fold_all_push(s, rs.take(round as int), rs[round as int]);
            assert(rs.take(round + 1) =~= rs.take(round as int).push(rs[round as int]));
            vstd::arithmetic::power2::lemma_pow2_unfold((omega_1 - round) as nat);
        }
    }
    proof {
        assert(rs.take(omega_1 as int) =~= rs);
        assert(pow2(0) == 1) by {
            vstd::arithmetic::power2::lemma2_to64();
        }
        vstd::arithmetic::power2::lemma_pow2_pos(omega_1 as nat);
    }
    working_buffer[0]
}

// ================================================================================
// The Lagrange denominators and the dynamic folding of the extended grid.
// ================================================================================

/// The inverse of the Lagrange denominator of node i among {0, ..., d-1}, or 0 where
/// the denominator vanishes modulo p.
pub open spec fn denominator_inverse(i: int, d: nat) -> nat {
    if md(basis_den(i, d)) != 0 {
        field_inv(md(basis_den(i, d)) as nat)
    } else {
        0
    }
}

/// The points 0, ..., n-1 as field elements.
fn small_points(n: usize) -> (points: Vec<StdFr2>)
    ensures
        points@.len() == n,
        elems_canonical(points@),
        forall|j: int| 0 <= j < n ==> (#[trigger] points@[j]).value() == j,
{
    let mut points: Vec<StdFr2> = Vec::new();
    for v in 0..n
        invariant
            points@.len() == v,
            elems_canonical(points@),
            forall|j: int| 0 <= j < v ==> (#[trigger] points@[j]).value() == j,
    {
        points.push(fr_from_u64(v as u64));
    }
    points
}

/// prod_{j < d, j != i} (x_i - x_j) for the points x_j = j, reduced.
fn lagrange_denominator(points: &Vec<StdFr2>, i: usize) -> (den: StdFr2)
    requires
        i < points@.len(),
        elems_canonical(points@),
        forall|j: int| 0 <= j < points@.len() ==> (#[trigger] points@[j]).value() == j,
    ensures
        den.is_canonical(),
        den.value() == md(basis_den(i as int, points@.len())),
{
    let d = points.len();
    let x_i = points[i];
    let mut denominator = StdFr2::one();
    proof {
        lemma_md_canonical(1);
        assert(Seq::new(0, num_factors(i as int, i as int)) =~= Seq::<int>::empty());
    }
    for j in 0..d
        invariant
            d == points@.len(),
            i < d,
            x_i == points@[i as int],
            elems_canonical(points@),
            forall|jj: int| 0 <= jj < points@.len() ==> (#[trigger] points@[jj]).value() == jj,
            denominator.is_canonical(),
            denominator.value() == md(basis_den(i as int, j as nat)),
    {
        proof {
            lemma_basis_step(i as int, i as int, j as nat);
        }
        if i != j {
            let factor = fr_sub(&x_i, &points[j]);
            proof {
                lemma_fe_sub_md(x_i.value(), points@[j as int].value());
                lemma_fe_mul_md(denominator.value(), factor.value(), basis_den(i as int, j as nat), i - j);
            }
            denominator = fr_mul(&denominator, &factor);
        } else {
            proof {
                vstd::arithmetic::mul::lemma_mul_basics(basis_den(i as int, j as nat));
            }
        }
    }
    denominator
}

/// The inverses of the Lagrange denominators prod_{j != i} (i - j) of the nodes
/// 0, ..., d-1 (0 where a denominator is not invertible). They do not depend on the
/// challenge, so they are computed once per run.
pub fn compute_lagrange_denominator_invs(d: usize) -> (denom_inv: Vec<StdFr2>)
    ensures
        denom_inv@.len() == d,
        elems_canonical(denom_inv@),
        forall|i: int| 0 <= i < d ==> (#[trigger] denom_inv@[i]).value() == denominator_inverse(i, d as nat),
{
    let classical_points = small_points(d);
    let mut denom_inv = vec![StdFr2::zero(); d];
    for i in 0..d
        invariant
            classical_points@.len() == d,
            elems_canonical(classical_points@),
            forall|j: int| 0 <= j < d ==> (#[trigger] classical_points@[j]).value() == j,
            denom_inv@.len() == d,
            elems_canonical(denom_inv@),
            forall|ii: int| 0 <= ii < i ==> (#[trigger] denom_inv@[ii]).value() == denominator_inverse(ii, d as nat),
    {
        let denominator = lagrange_denominator(&classical_points, i);
        let inv = match fr_inverse(&denominator) {
            Some(x) => x,
            None => StdFr2::zero(),
        };
        proof {
            if denominator.value() != 0 {
                lemma_field_inv_unique(denominator.value(), inv.value());
            }
            lemma_md_canonical(0);
        }
        denom_inv.set(i, inv);
    }
    denom_inv
}

/// The Lagrange combination at r of one cell of the grid: entry f base holds the
/// value at infinity, entries f base + 1 + i the values at the points i < d; the
/// denominators' inverses are given.
pub open spec fn cell_fold(q: Seq<int>, f: int, base: nat, d: nat, r: int, dinv: Seq<int>) -> int {
    md(q[f * base] * vanishing_prod(r, d) + seq_sum(Seq::new(d, cell_terms(q, f * base, d, r, dinv))))
}

/// The terms q[start + 1 + i] L_i(r) of a cell's Lagrange combination.
pub open spec fn cell_terms(q: Seq<int>, start: int, d: nat, r: int, dinv: Seq<int>) -> spec_fn(int) -> int {
    |i: int| q[start + i + 1] * (basis_num(r, i, d) * dinv[i])
}

/// prod_{j < d, j != i} (r - x_j) for the points x_j = j, reduced.
fn lagrange_numerator(points: &Vec<StdFr2>, i: usize, challenge: StdFr2) -> (num: StdFr2)
    requires
        i < points@.len(),
        challenge.is_canonical(),
        elems_canonical(points@),
        forall|j: int| 0 <= j < points@.len() ==> (#[trigger] points@[j]).value() == j,
    ensures
        num.is_canonical(),
        num.value() == md(basis_num(challenge.value() as int, i as int, points@.len())),
{
    let d = points.len();
    let ghost r = challenge.value() as int;
    let mut numerator = StdFr2::one();
    proof {
        lemma_md_canonical(1);
        assert(Seq::new(0, num_factors(r, i as int)) =~= Seq::<int>::empty());
    }
    for j in 0..d
        invariant
            d == points@.len(),
            i < d,
            r == challenge.value(),
            challenge.is_canonical(),
            elems_canonical(points@),
            forall|jj: int| 0 <= jj < points@.len() ==> (#[trigger] points@[jj]).value() == jj,
            numerator.is_canonical(),
            numerator.value() == md(basis_num(r, i as int, j as nat)),
    {
        proof {
            lemma_basis_step(r, i as int, j as nat);
        }
        if i != j {
            let factor = fr_sub(&challenge, &points[j]);
            proof {
                lemma_fe_sub_md(challenge.value(), points@[j as int].value());
                lemma_fe_mul_md(numerator.value(), factor.value(), basis_num(r, i as int, j as nat), r - j);
            }
            numerator = fr_mul(&numerator, &factor);
        } else {
            proof {
                vstd::arithmetic::mul::lemma_mul_basics(basis_num(r, i as int, j as nat));
            }
        }
    }
    numerator
}

/// The infinity-aware folding of the extended grid with the round's challenge: every
/// cell of the remaining base^remaining_vars cells is the interpolation at the
/// challenge of its d + 1 values (at infinity and at 0, ..., d-1).
pub fn dynamic_folding_step(
    q: &[StdFr2],
    challenge: StdFr2,
    d: usize,
    base: usize,
    remaining_vars: usize,
    denom_inv: &[StdFr2],
) -> (next_q: Vec<StdFr2>)
    requires
        d < base,
        remaining_vars <= u32::MAX,
        pow(base as int, remaining_vars as nat) * base <= q@.len(),
        denom_inv@.len() >= d,
        elems_canonical(q@),
        elems_canonical(denom_inv@),
        challenge.is_canonical(),
    ensures
        next_q@.len() == pow(base as int, remaining_vars as nat),
        elems_canonical(next_q@),
        forall|f: int| 0 <= f < next_q@.len() ==> (#[trigger] next_q@[f]).value() == cell_fold(
            elems_values(q@),
            f,
            base as nat,
            d as nat,
            challenge.value() as int,
            elems_values(denom_inv@),
        ),
{
    let q_len = q.len();
    proof {
        vstd::arithmetic::power::lemma_pow_positive(base as int, remaining_vars as nat);
        vstd::arithmetic::mul::lemma_mul_inequality(1, base as int, pow(base as int, remaining_vars as nat));
        vstd::arithmetic::mul::lemma_mul_is_commutative(base as int, pow(base as int, remaining_vars as nat));
    }
    let next_grid_size = usize::pow(base, remaining_vars as u32);
    let mut next_q = vec![StdFr2::zero(); next_grid_size];
    let ghost r = challenge.value() as int;
    let ghost qv = elems_values(q@);
    let ghost dv = elems_values(denom_inv@);
    // Phase 1: the challenge-dependent scalars.
    let classical_points = small_points(d);
    let mut finite_lagrange_coeffs = vec![StdFr2::zero(); d];
    for i in 0..d
        invariant
            classical_points@.len() == d,
            elems_canonical(classical_points@),
            forall|j: int| 0 <= j < d ==> (#[trigger] classical_points@[j]).value() == j,
            r == challenge.value(),
            challenge.is_canonical(),
            dv == elems_values(denom_inv@),
            denom_inv@.len() >= d,
            elems_canonical(denom_inv@),
            finite_lagrange_coeffs@.len() == d,
            elems_canonical(finite_lagrange_coeffs@),
            forall|ii: int| 0 <= ii < i ==> (#[trigger] finite_lagrange_coeffs@[ii]).value() == md(
                basis_num(r, ii, d as nat) * dv[ii],
            ),
    {
        let numerator = lagrange_numerator(&classical_points, i, challenge);
        let coeff = fr_mul(&numerator, &denom_inv[i]);
        proof {
            lemma_md_canonical(denom_inv@[i as int].value());
            lemma_fe_mul_md(numerator.value(), denom_inv@[i as int].value(), basis_num(r, i as int, d as nat), dv[i as int]);
        }
        finite_lagrange_coeffs.set(i, coeff);
    }
    let mut vanishing = StdFr2::one();
    proof {
        lemma_md_canonical(1);
        assert(Seq::new(0, |k: int| r - k) =~= Seq::<int>::empty());
    }
    for k in 0..d
        invariant
            classical_points@.len() == d,
            elems_canonical(classical_points@),
            forall|j: int| 0 <= j < d ==> (#[trigger] classical_points@[j]).value() == j,
            r == challenge.value(),
            challenge.is_canonical(),
            vanishing.is_canonical(),
            vanishing.value() == md(vanishing_prod(r, k as nat)),
    {
        let diff = fr_sub(&challenge, &classical_points[k]);
        proof {
            lemma_fe_sub_md(challenge.value(), classical_points@[k as int].value());
            lemma_fe_mul_md(vanishing.value(), diff.value(), vanishing_prod(r, k as nat), r - k);
            lemma_seq_prod_new_step(k as nat, |kk: int| r - kk);
        }
        vanishing = fr_mul(&vanishing, &diff);
    }
    // Phase 2: one interpolation per remaining cell.
    for future_idx in 0..next_grid_size
        invariant
            d < base,
            next_grid_size == pow(base as int, remaining_vars as nat),
            next_grid_size * base <= q@.len(),
            q_len == q@.len(),
            qv == elems_values(q@),
            dv == elems_values(denom_inv@),
            elems_canonical(q@),
            r == challenge.value(),
            vanishing.is_canonical(),
            vanishing.value() == md(vanishing_prod(r, d as nat)),
            finite_lagrange_coeffs@.len() == d,
            elems_canonical(finite_lagrange_coeffs@),
            forall|ii: int| 0 <= ii < d ==> (#[trigger] finite_lagrange_coeffs@[ii]).value() == md(
                basis_num(r, ii, d as nat) * dv[ii],
            ),
            next_q@.len() == next_grid_size,
            elems_canonical(next_q@),
            forall|f: int| 0 <= f < future_idx ==> (#[trigger] next_q@[f]).value() == cell_fold(
                qv,
                f,
                base as nat,
                d as nat,
                r,
                dv,
            ),
    {
        proof {
            assert(future_idx * base + base <= next_grid_size * base) by (nonlinear_arith)
                requires
                    future_idx < next_grid_size,
            ;
        }
        let old_grid_idx_inf = future_idx * base;
        let leading_coeff = q[old_grid_idx_inf];
        let mut interpolated_val = fr_mul(&leading_coeff, &vanishing);
        let ghost fb = old_grid_idx_inf as int;
        proof {
            lemma_md_canonical(leading_coeff.value());
            lemma_fe_mul_md(leading_coeff.value(), vanishing.value(), qv[fb], vanishing_prod(r, d as nat));
            assert(Seq::new(0, cell_terms(qv, fb, d as nat, r, dv)) =~= Seq::<int>::empty());
            assert(qv[fb] * vanishing_prod(r, d as nat) + 0 == qv[fb] * vanishing_prod(r, d as nat));
        }
        for i in 0..d
            invariant
                d < base,
                fb == future_idx * base,
                old_grid_idx_inf == fb,
                fb + base <= q@.len(),
                q_len == q@.len(),
                qv == elems_values(q@),
                dv == elems_values(denom_inv@),
                elems_canonical(q@),
                r == challenge.value(),
                finite_lagrange_coeffs@.len() == d,
                elems_canonical(finite_lagrange_coeffs@),
                forall|ii: int| 0 <= ii < d ==> (#[trigger] finite_lagrange_coeffs@[ii]).value() == md(
                    basis_num(r, ii, d as nat) * dv[ii],
                ),
                interpolated_val.is_canonical(),
                interpolated_val.value() == md(qv[fb] * vanishing_prod(r, d as nat) + seq_sum(Seq::new(i as nat, cell_terms(qv, fb, d as nat, r, dv)))),
        {
            let old_grid_idx_finite = (i + 1) + old_grid_idx_inf;
            let term = fr_mul(&q[old_grid_idx_finite], &finite_lagrange_coeffs[i]);
            proof {
                let c = basis_num(r, i as int, d as nat) * dv[i as int];
                lemma_md_canonical(q@[old_grid_idx_finite as int].value());
                lemma_fe_mul_md(q@[old_grid_idx_finite as int].value(), finite_lagrange_coeffs@[i as int].value(), qv[fb + i + 1], c);
                lemma_seq_sum_new_step(i as nat, cell_terms(qv, fb, d as nat, r, dv));
                lemma_fe_add_md(
                    interpolated_val.value(),
                    term.value(),
                    qv[fb] * vanishing_prod(r, d as nat) + seq_sum(Seq::new(i as nat, cell_terms(qv, fb, d as nat, r, dv))),
                    cell_terms(qv, fb, d as nat, r, dv)(i as int),
                );
            }
            interpolated_val = fr_add(&interpolated_val, &term);
        }
        next_q.set(future_idx, interpolated_val);
    }
    next_q
}

// ================================================================================
// Extrapolation kernels.
// ================================================================================

/// The kernel's coefficient at infinity: prod_{i < k} (k - i), reduced.
pub open spec fn kernel_inf_value(k: nat) -> int {
    md(vanishing_prod(k as int, k))
}

/// The kernel's classical coefficients: the Lagrange coefficients L_t(k) of the
/// nodes 0, ..., k-1 at the target point k, reduced.
pub open spec fn kernel_classical_values(k: nat) -> Seq<int> {
    Seq::new(k, |t: int| md(lagrange_coeff_inv(k as int, t, k)))
}

/// Invertible denominators for k nodes stay invertible for fewer nodes.
pub proof fn lemma_denominators_invertible_mono(k: nat, m: nat)
    requires
        m <= k,
        denominators_invertible(k),
    ensures
        denominators_invertible(m),
    decreases k - m,
{
    if m < k {
        lemma_denominators_invertible_mono(k, m + 1);
        assert forall|i: int| 0 <= i < m implies md(#[trigger] basis_den(i, m)) != 0 by {
            assert(md(basis_den(i, m + 1)) != 0);
            lemma_basis_step(i, i, m);
            if md(basis_den(i, m)) == 0 {
                lemma_md_mul(basis_den(i, m), i - m);
                vstd::arithmetic::mul::lemma_mul_basics(i - m);
                assert(md(0 * md(i - m)) == 0);
            }
        }
    }
}

/// The extrapolation kernel from U_{k-1} = {inf, 0, ..., k-1} to the point k:
/// entry 0 is k! (the coefficient of the value at infinity), entry 1 + t the Lagrange
/// coefficient L_t(k).
pub fn compute_kernel(k: usize) -> (kernel: Vec<StdFr2>)
    requires
        denominators_invertible(k as nat),
    ensures
        kernel@.len() == k + 1,
        elems_canonical(kernel@),
        kernel@[0].value() == kernel_inf_value(k as nat),
        forall|t: int| 0 <= t < k ==> (#[trigger] kernel@[t + 1]).value() == kernel_classical_values(k as nat)[t],
{
    let mut kernel: Vec<StdFr2> = Vec::new();
    let target_x = fr_from_u64(k as u64);
    let x_points = small_points(k);
    let ghost r = k as int;
    // 1. The point at infinity: prod_i (k - i).
    let mut c_inf = StdFr2::one();
    proof {
        lemma_md_canonical(1);
        assert(Seq::new(0, |kk: int| r - kk) =~= Seq::<int>::empty());
    }
    for i in 0..k
        invariant
            x_points@.len() == k,
            elems_canonical(x_points@),
            forall|j: int| 0 <= j < k ==> (#[trigger] x_points@[j]).value() == j,
            r == target_x.value(),
            r == k as int,
            target_x.is_canonical(),
            c_inf.is_canonical(),
            c_inf.value() == md(vanishing_prod(r, i as nat)),
    {
        let diff = fr_sub(&target_x, &x_points[i]);
        proof {
            lemma_fe_sub_md(target_x.value(), x_points@[i as int].value());
            lemma_fe_mul_md(c_inf.value(), diff.value(), vanishing_prod(r, i as nat), r - i);
            lemma_seq_prod_new_step(i as nat, |kk: int| r - kk);
        }
        c_inf = fr_mul(&c_inf, &diff);
    }
    kernel.push(c_inf);
    // 2. The classical Lagrange coefficients at k.
    for i in 0..k
        invariant
            x_points@.len() == k,
            elems_canonical(x_points@),
            forall|j: int| 0 <= j < k ==> (#[trigger] x_points@[j]).value() == j,
            r == target_x.value(),
            target_x.is_canonical(),
            denominators_invertible(k as nat),
            r == k as int,
            kernel@.len() == i + 1,
            elems_canonical(kernel@),
            kernel@[0].value() == kernel_inf_value(k as nat),
            forall|t: int| 0 <= t < i ==> (#[trigger] kernel@[t + 1]).value() == kernel_classical_values(k as nat)[t],
    {
        let numerator_prod = lagrange_numerator(&x_points, i, target_x);
        let denominator_prod = lagrange_denominator(&x_points, i);
        proof {
            assert(md(basis_den(i as int, k as nat)) != 0);
        }
        let inv = fr_inverse(&denominator_prod).unwrap();
        let lagrange_coeff = fr_mul(&numerator_prod, &inv);
        proof {
            lemma_field_inv_unique(denominator_prod.value(), inv.value());
            lemma_md_canonical(inv.value());
            lemma_fe_mul_md(
                numerator_prod.value(),
                inv.value(),
                basis_num(r, i as int, k as nat),
                field_inv(md(basis_den(i as int, k as nat)) as nat) as int,
            );
        }
        kernel.push(lagrange_coeff);
        proof {
            assert(kernel_classical_values(k as nat)[i as int] == md(lagrange_coeff_inv(k as int, i as int, k as nat)));
            assert(kernel@[i + 1] == lagrange_coeff);
        }
    }
    kernel
}

/// The kernel for k, split as the extrapolation uses it: the coefficient at infinity,
/// the classical coefficients, and the limbs of the classical coefficients.
pub struct KernelData {
    pub kernel_inf: StdFr2,
    pub kernel_classical: Vec<StdFr2>,
    pub kernel_classical_bigints: Vec<[u64; 4]>,
}

impl KernelData {
    /// The data is the kernel for k.
    pub open spec fn is_kernel_for(&self, k: nat) -> bool {
        &&& self.kernel_inf.is_canonical()
        &&& self.kernel_inf.value() == kernel_inf_value(k)
        &&& self.kernel_classical@.len() == k
        &&& elems_canonical(self.kernel_classical@)
        &&& forall|t: int| 0 <= t < k ==> (#[trigger] self.kernel_classical@[t]).value() == kernel_classical_values(k)[t]
        &&& self.kernel_classical_bigints@.len() == k
        &&& forall|t: int| 0 <= t < k ==> #[trigger] self.kernel_classical_bigints@[t] == self.kernel_classical@[t].0
    }
}

/// The kernel cache holds the kernel for every k in 1..=max_k.
pub open spec fn kernel_cache_wf(cache: Seq<Option<KernelData>>, max_k: nat) -> bool {
    &&& cache.len() == max_k + 1
    &&& forall|k: int| 1 <= k <= max_k ==> ((#[trigger] cache[k]) matches Some(kd) && kd.is_kernel_for(k as nat))
}

/// Precomputes the kernels for every k in 1..=max_k, once, to be shared by all the
/// extrapolations of a run.
pub fn precompute_kernel_cache(max_k: usize) -> (cache: Vec<Option<KernelData>>)
    requires
        max_k < usize::MAX,
        denominators_invertible(max_k as nat),
    ensures
        kernel_cache_wf(cache@, max_k as nat),
        cache@[0] is None,
{
    let mut cache: Vec<Option<KernelData>> = Vec::new();
    cache.push(None);
    for k in 1..max_k + 1
        invariant
            1 <= k <= max_k + 1,
            denominators_invertible(max_k as nat),
            cache@.len() == k,
            cache@[0] is None,
            forall|kk: int| 1 <= kk < k ==> ((#[trigger] cache@[kk]) matches Some(kd) && kd.is_kernel_for(kk as nat)),
    {
        proof {
            lemma_denominators_invertible_mono(max_k as nat, k as nat);
        }
        let kernel = compute_kernel(k);
        let kernel_inf = kernel[0];
        let mut kernel_classical: Vec<StdFr2> = Vec::new();
        let mut kernel_classical_bigints: Vec<[u64; 4]> = Vec::new();
        for t in 0..k
            invariant
                kernel@.len() == k + 1,
                elems_canonical(kernel@),
                forall|tt: int| 0 <= tt < k ==> (#[trigger] kernel@[tt + 1]).value() == kernel_classical_values(k as nat)[tt],
                kernel_classical@.len() == t,
                kernel_classical_bigints@.len() == t,
                elems_canonical(kernel_classical@),
                forall|tt: int| 0 <= tt < t ==> (#[trigger] kernel_classical@[tt]).value() == kernel_classical_values(k as nat)[tt],
                forall|tt: int| 0 <= tt < t ==> #[trigger] kernel_classical_bigints@[tt] == kernel_classical@[tt].0,
        {
            let c = kernel[t + 1];
            kernel_classical.push(c);
            kernel_classical_bigints.push(c.0);
        }
        cache.push(Some(KernelData { kernel_inf, kernel_classical, kernel_classical_bigints }));
    }
    cache
}

// ================================================================================
// Multivariate extrapolation from U_k^v to U_d^v.
// ================================================================================

/// The terms e[start + t] K_t of one extrapolated value, K the kernel for k.
pub open spec fn window_terms(e: Seq<int>, start: int, k: nat) -> spec_fn(int) -> int {
    |t: int| e[start + t] * kernel_classical_values(k)[t]
}

/// A line of values on U_k = {inf, 0, ..., k-1} extended by n points: entry k + 1 + c
/// (the point k + c) is w(inf) K_inf + sum_t e(c + t) K_t, over the k entries before it.
pub open spec fn line_extend(w: Seq<int>, k: nat, n: nat) -> Seq<int>
    decreases n,
{
    if n == 0 {
        w.take(k as int + 1)
    } else {
        let e = line_extend(w, k, (n - 1) as nat);
        e.push(md(w[0] * kernel_inf_value(k) + seq_sum(Seq::new(k, window_terms(e, n as int, k)))))
    }
}

pub proof fn lemma_line_extend_len(w: Seq<int>, k: nat, n: nat)
    requires
        w.len() >= k + 1,
    ensures
        line_extend(w, k, n).len() == k + 1 + n,
        forall|i: int| 0 <= i <= k ==> #[trigger] line_extend(w, k, n)[i] == w[i],
    decreases n,
{
    if n > 0 {
        lemma_line_extend_len(w, k, (n - 1) as nat);
    }
}

/// Line (a, b) of a grid of left x (k + 1) x right values: the k + 1 values along
/// the middle axis.
pub open spec fn grid_line(g: Seq<int>, a: int, b: int, k: nat, right: nat) -> Seq<int> {
    Seq::new(k + 1, |t: int| g[(a * (k + 1) + t) * right + b])
}

/// The grid with its middle axis (of stride `right`) extended from U_k to U_{k+n}.
pub open spec fn extend_axis(g: Seq<int>, left: nat, right: nat, k: nat, n: nat) -> Seq<int> {
    Seq::new(
        left * (k + n + 1) * right,
        |i: int| line_extend(grid_line(g, (i / right as int) / (k + n + 1) as int, i % right as int, k, right), k, n)[(i
            / right as int) % (k + n + 1) as int],
    )
}

/// The grid over U_k^v with its axes 1, ..., j extended to U_{k+n} (axis 1 has the
/// largest stride).
pub open spec fn extend_axes(g: Seq<int>, k: nat, n: nat, v: nat, j: nat) -> Seq<int>
    decreases j,
{
    if j == 0 {
        g
    } else {
        extend_axis(
            extend_axes(g, k, n, v, (j - 1) as nat),
            pow((k + n + 1) as int, (j - 1) as nat) as nat,
            pow((k + 1) as int, (v - j) as nat) as nat,
            k,
            n,
        )
    }
}

/// The index of (a, pos, b) in a grid of stride `right` and middle size `size`.
pub proof fn lemma_grid_coords(a: int, pos: int, b: int, size: int, right: int)
    requires
        0 <= a,
        0 <= pos < size,
        0 <= b < right,
    ensures
        ((a * size + pos) * right + b) % right == b,
        ((a * size + pos) * right + b) / right == a * size + pos,
        (a * size + pos) % size == pos,
        (a * size + pos) / size == a,
{
    vstd::arithmetic::div_mod::lemma_fundamental_div_mod_converse((a * size + pos) * right + b, right, a * size + pos, b);
    vstd::arithmetic::div_mod::lemma_fundamental_div_mod_converse(a * size + pos, size, a, pos);
    vstd::arithmetic::mul::lemma_mul_is_commutative(a * size + pos, right);
    vstd::arithmetic::mul::lemma_mul_is_commutative(a, size);
}

/// Every index of the grid has its coordinates.
pub proof fn lemma_grid_decompose(i: int, size: int, right: int)
    requires
        0 <= i,
        0 < size,
        0 < right,
    ensures
        0 <= i % right < right,
        0 <= (i / right) % size < size,
        0 <= (i / right) / size,
        i == ((i / right) / size * size + (i / right) % size) * right + i % right,
{
    vstd::arithmetic::div_mod::lemma_fundamental_div_mod(i, right);
    vstd::arithmetic::div_mod::lemma_fundamental_div_mod(i / right, size);
    vstd::arithmetic::div_mod::lemma_div_pos_is_pos(i, right);
    vstd::arithmetic::div_mod::lemma_div_pos_is_pos(i / right, size);
    vstd::arithmetic::div_mod::lemma_mod_bound(i, right);
    vstd::arithmetic::div_mod::lemma_mod_bound(i / right, size);
    vstd::arithmetic::mul::lemma_mul_is_commutative(right, i / right);
    vstd::arithmetic::mul::lemma_mul_is_commutative(size, (i / right) / size);
}

/// The coordinates of an index below left x size x right.
pub proof fn lemma_grid_bound(a: int, pos: int, b: int, size: int, right: int, left: int)
    requires
        0 <= a < left,
        0 <= pos < size,
        0 <= b < right,
    ensures
        0 <= (a * size + pos) * right + b < left * size * right,
{
    assert(a * size + pos < left * size) by (nonlinear_arith)
        requires
            0 <= a < left,
            0 <= pos < size,
    ;
    assert((a * size + pos) * right + b < (a * size + pos + 1) * right) by (nonlinear_arith)
        requires
            0 <= b < right,
    ;
    assert((a * size + pos + 1) * right <= left * size * right) by (nonlinear_arith)
        requires
            a * size + pos + 1 <= left * size,
            0 < right,
    ;
}

/// A bigger base gives a bigger power.
pub proof fn lemma_pow_base_mono(a: nat, b: nat, e: nat)
    requires
        1 <= a <= b,
    ensures
        pow(a as int, e) <= pow(b as int, e),
    decreases e,
{
    vstd::arithmetic::power::lemma_pow0(a as int);
    vstd::arithmetic::power::lemma_pow0(b as int);
    if e > 0 {
        lemma_pow_base_mono(a, b, (e - 1) as nat);
        vstd::arithmetic::power::lemma_pow_positive(b as int, (e - 1) as nat);
        vstd::arithmetic::power::lemma_pow_positive(a as int, (e - 1) as nat);
        reveal(pow);
        assert(pow(a as int, e) == a * pow(a as int, (e - 1) as nat));
        assert(pow(b as int, e) == b * pow(b as int, (e - 1) as nat));
        vstd::arithmetic::mul::lemma_mul_inequality(a as int, b as int, pow(a as int, (e - 1) as nat));
        vstd::arithmetic::mul::lemma_mul_left_inequality(b as int, pow(a as int, (e - 1) as nat), pow(b as int, (e - 1) as nat));
    }
}

/// Extends one line held in `working_row` (entries 0..=k filled) by num_extrap points.
fn extend_working_row(working_row: &mut Vec<StdFr2>, k: usize, num_extrap: usize, kd: &KernelData)
    requires
        kd.is_kernel_for(k as nat),
        k + num_extrap + 1 <= usize::MAX,
        old(working_row)@.len() == k + num_extrap + 1,
        elems_canonical(old(working_row)@),
    ensures
        final(working_row)@.len() == k + num_extrap + 1,
        elems_canonical(final(working_row)@),
        forall|i: int| 0 <= i < k + num_extrap + 1 ==> (#[trigger] final(working_row)@[i]).value() == line_extend(
            elems_values(old(working_row)@),
            k as nat,
            num_extrap as nat,
        )[i],
{
    let size_k = k + 1;
    let ghost w = elems_values(working_row@);
    proof {
        lemma_line_extend_len(w, k as nat, 0);
        lemma_line_extend_len(w, k as nat, num_extrap as nat);
    }
    let inf_term = fr_mul(&working_row[0], &kd.kernel_inf);
    proof {
        lemma_md_canonical(working_row@[0].value());
        lemma_fe_mul_md(working_row@[0].value(), kd.kernel_inf.value(), w[0], kernel_inf_value(k as nat));
        crate::field_math::lemma_md_range(vanishing_prod(k as int, k as nat));
    }
    for c in 0..num_extrap
        invariant
            size_k == k + 1,
            kd.is_kernel_for(k as nat),
            k + num_extrap + 1 <= usize::MAX,
            working_row@.len() == k + num_extrap + 1,
            elems_canonical(working_row@),
            w.len() == k + num_extrap + 1,
            inf_term.is_canonical(),
            inf_term.value() == md(w[0] * kernel_inf_value(k as nat)),
            forall|i: int| 0 <= i < size_k + c ==> (#[trigger] working_row@[i]).value() == line_extend(w, k as nat, c as nat)[i],
    {
        let mut next_val = inf_term;
        let start_idx = 1 + c;
        let end_idx = start_idx + k;
        let window = vstd::slice::slice_subrange(working_row.as_slice(), start_idx, end_idx);
        let ghost e = line_extend(w, k as nat, c as nat);
        proof {
            lemma_line_extend_len(w, k as nat, c as nat);
            assert forall|i: int| 0 <= i < window@.len() implies (#[trigger] window@[i]).is_canonical() by {
                assert(window@[i] == working_row@[start_idx + i]);
            }
        }
        extrapolate_dot_product(&mut next_val, window, kd.kernel_classical_bigints.as_slice(), kd.kernel_classical.as_slice());
        proof {
            let cs = kd.kernel_classical@;
            if k >= DELAYED_REDUCTION_THRESHOLD {
                lemma_adaptive_is_dot(window@, kd.kernel_classical_bigints@, cs, k as nat);
            }
            let wt = window_terms(e, (c + 1) as int, k as nat);
            assert(Seq::new(k as nat, |i: int| (window@[i].value() * cs[i].value()) as int) =~= Seq::new(k as nat, wt)) by {
                assert forall|i: int| 0 <= i < k implies #[trigger] wt(i) == (window@[i].value() * cs[i].value()) as int by {
                    assert(window@[i] == working_row@[start_idx + i]);
                    assert(working_row@[start_idx + i].value() == e[(c + 1) + i]);
                    assert(cs[i].value() == kernel_classical_values(k as nat)[i]);
                }
            }
            crate::field_math::lemma_md_add(w[0] * kernel_inf_value(k as nat), seq_sum(Seq::new(k as nat, wt)));
            lemma_md_canonical(inf_term.value());
        }
        working_row.set(size_k + c, next_val);
        proof {
            assert(line_extend(w, k as nat, (c + 1) as nat) == e.push(md(w[0] * kernel_inf_value(k as nat) + seq_sum(
                Seq::new(k as nat, window_terms(e, (c + 1) as int, k as nat)),
            ))));
            lemma_line_extend_len(w, k as nat, (c + 1) as nat);
        }
    }
}

/// Extends the middle axis of the grid `current` (left x (k+1) x right) into `next`
/// (left x (k+num_extrap+1) x right), one line at a time through `working_row`.
fn extrapolate_axis(
    current: &Vec<StdFr2>,
    next: &mut Vec<StdFr2>,
    working_row: &mut Vec<StdFr2>,
    left: usize,
    right: usize,
    k: usize,
    num_extrap: usize,
    kd: &KernelData,
)
    requires
        kd.is_kernel_for(k as nat),
        k + num_extrap + 1 <= usize::MAX,
        0 < right,
        left * (k + 1) * right <= current@.len(),
        left * (k + num_extrap + 1) * right <= old(next)@.len(),
        old(working_row)@.len() == k + num_extrap + 1,
        elems_canonical(current@),
        elems_canonical(old(next)@),
        elems_canonical(old(working_row)@),
    ensures
        final(next)@.len() == old(next)@.len(),
        final(working_row)@.len() == k + num_extrap + 1,
        elems_canonical(final(next)@),
        elems_canonical(final(working_row)@),
        forall|i: int| 0 <= i < left * (k + num_extrap + 1) * right ==> (#[trigger] final(next)@[i]).value()
            == extend_axis(elems_values(current@), left as nat, right as nat, k as nat, num_extrap as nat)[i],
{
    let size_k = k + 1;
    let size_d = k + num_extrap + 1;
    let ghost cv = elems_values(current@);
    let ghost spec = extend_axis(cv, left as nat, right as nat, k as nat, num_extrap as nat);
    let ghost total = left * size_d * right;
    let ghost next_len = next@.len();
    let cur_len = current.len();
    let nxt_len = next.len();
    for xl in 0..left
        invariant
            size_k == k + 1,
            size_d == k + num_extrap + 1,
            kd.is_kernel_for(k as nat),
            k + num_extrap + 1 <= usize::MAX,
            0 < right,
            left * size_k * right <= current@.len(),
            cur_len == current@.len(),
            nxt_len == next_len,
            total == left * size_d * right,
            total <= next_len,
            next@.len() == next_len,
            working_row@.len() == size_d,
            cv == elems_values(current@),
            spec == extend_axis(cv, left as nat, right as nat, k as nat, num_extrap as nat),
            elems_canonical(current@),
            elems_canonical(next@),
            elems_canonical(working_row@),
            forall|i: int| 0 <= i < total && (i / right as int) / (size_d as int) < xl ==> (#[trigger] next@[i]).value() == spec[i],
    {
        for xr in 0..right
            invariant
                size_k == k + 1,
                size_d == k + num_extrap + 1,
                kd.is_kernel_for(k as nat),
                k + num_extrap + 1 <= usize::MAX,
                0 <= xl < left,
                0 < right,
                left * size_k * right <= current@.len(),
                cur_len == current@.len(),
                nxt_len == next_len,
                total == left * size_d * right,
                total <= next_len,
                next@.len() == next_len,
                working_row@.len() == size_d,
                cv == elems_values(current@),
                spec == extend_axis(cv, left as nat, right as nat, k as nat, num_extrap as nat),
                elems_canonical(current@),
                elems_canonical(next@),
                elems_canonical(working_row@),
                forall|i: int| 0 <= i < total && ((i / right as int) / (size_d as int) < xl
                    || ((i / right as int) / (size_d as int) == xl && i % (right as int) < xr)) ==> (#[trigger] next@[i]).value()
                    == spec[i],
        {
            let ghost line = grid_line(cv, xl as int, xr as int, k as nat, right as nat);
            proof {
                lemma_offset_bounds(xl as int, size_k as int, right as int, left as int, xr as int, 0);
                lemma_offset_bounds(xl as int, size_d as int, right as int, left as int, xr as int, 0);
            }
            let current_line_offset = xl * size_k * right + xr;
            let next_line_offset = xl * size_d * right + xr;
            // 1. The line into the working row.
            for idx in 0..size_k
                invariant
                    size_k == k + 1,
                    size_d == k + num_extrap + 1,
                    0 <= xl < left,
                    0 <= xr < right,
                    left * size_k * right <= current@.len(),
                    cur_len == current@.len(),
                    current_line_offset == xl * size_k * right + xr,
                    working_row@.len() == size_d,
                    cv == elems_values(current@),
                    line == grid_line(cv, xl as int, xr as int, k as nat, right as nat),
                    elems_canonical(current@),
                    elems_canonical(working_row@),
                    forall|t: int| 0 <= t < idx ==> (#[trigger] working_row@[t]).value() == line[t],
            {
                proof {
                    lemma_offset_bounds(xl as int, size_k as int, right as int, left as int, xr as int, idx as int);
                }
                let memory_index = current_line_offset + idx * right;
                working_row.set(idx, current[memory_index]);
            }
            // 2. The extrapolated points.
            let ghost before = elems_values(working_row@);
            extend_working_row(working_row, k, num_extrap, kd);
            proof {
                assert forall|t: int| 0 <= t <= k implies #[trigger] before[t] == line[t] by {}
                assert(before.take(k as int + 1) =~= line.take(k as int + 1));
                lemma_line_extend_take(before, line, k as nat, num_extrap as nat);
            }
            // 3. The line into the next grid.
            let ghost mid = next@;
            for idx in 0..size_d
                invariant
                    size_d == k + num_extrap + 1,
                    0 <= xl < left,
                    0 <= xr < right,
                    0 < right,
                    total == left * size_d * right,
                    total <= next_len,
                    next@.len() == next_len,
                    nxt_len == next_len,
                    mid.len() == next_len,
                    next_line_offset == xl * size_d * right + xr,
                    working_row@.len() == size_d,
                    elems_canonical(next@),
                    elems_canonical(working_row@),
                    forall|t: int| 0 <= t < size_d ==> (#[trigger] working_row@[t]).value() == line_extend(line, k as nat, num_extrap as nat)[t],
                    forall|i: int| 0 <= i < next_len && !((i / right as int) / (size_d as int) == xl && i % (right as int) == xr
                        && (i / right as int) % (size_d as int) < idx) ==> #[trigger] next@[i] == mid[i],
                    forall|i: int| 0 <= i < total && (i / right as int) / (size_d as int) == xl && i % (right as int) == xr
                        && (i / right as int) % (size_d as int) < idx ==> (#[trigger] next@[i]).value() == line_extend(
                        line,
                        k as nat,
                        num_extrap as nat,
                    )[(i / right as int) % (size_d as int)],
            {
                proof {
                    lemma_offset_bounds(xl as int, size_d as int, right as int, left as int, xr as int, idx as int);
                    lemma_grid_coords(xl as int, idx as int, xr as int, size_d as int, right as int);
                }
                let memory_index = next_line_offset + idx * right;
                let ghost j = memory_index as int;
                let ghost prev_iter = next@;
                next.set(memory_index, working_row[idx]);
                proof {
                    assert forall|i: int| 0 <= i < next_len && i != j implies #[trigger] next@[i] == prev_iter[i] by {}
                    assert forall|i: int| 0 <= i < next_len && !((i / right as int) / (size_d as int) == xl && i % (right as int) == xr
                        && (i / right as int) % (size_d as int) < idx + 1) implies #[trigger] next@[i] == mid[i] by {
                        if i == j {
                            assert(false);
                        }
                    }
                    assert forall|i: int| 0 <= i < total && (i / right as int) / (size_d as int) == xl && i % (right as int) == xr
                        && (i / right as int) % (size_d as int) < idx + 1 implies (#[trigger] next@[i]).value() == line_extend(
                        line,
                        k as nat,
                        num_extrap as nat,
                    )[(i / right as int) % (size_d as int)] by {
                        if (i / right as int) % (size_d as int) == idx {
                            lemma_grid_decompose(i, size_d as int, right as int);
                            assert(i == j);
                        }
                    }
                }
            }
            proof {
                assert forall|i: int| 0 <= i < total && ((i / right as int) / (size_d as int) < xl
                    || ((i / right as int) / (size_d as int) == xl && i % (right as int) < xr + 1)) implies (#[trigger] next@[i]).value()
                    == spec[i] by {
                    lemma_grid_decompose(i, size_d as int, right as int);
                    if (i / right as int) / (size_d as int) == xl && i % (right as int) == xr {
                        assert(spec[i] == line_extend(line, k as nat, num_extrap as nat)[(i / right as int) % (size_d as int)]);
                    } else {
                        assert(next@[i] == mid[i]);
                    }
                }
            }
        }
    }
    proof {
        assert forall|i: int| 0 <= i < total implies (#[trigger] next@[i]).value() == spec[i] by {
            lemma_grid_bound_rev(i, size_d as int, right as int, left as int);
        }
    }
}

/// The offsets of a line and of its entries stay below left x size x right.
pub proof fn lemma_offset_bounds(xl: int, size: int, right: int, left: int, xr: int, idx: int)
    requires
        0 <= xl < left,
        0 <= xr < right,
        0 <= idx < size,
    ensures
        0 <= xl * size <= left * size * right,
        0 <= xl * size * right <= left * size * right,
        0 <= idx * right <= left * size * right,
        xl * size * right + xr + idx * right == (xl * size + idx) * right + xr,
        0 <= (xl * size + idx) * right + xr < left * size * right,
{
    lemma_grid_bound(xl, idx, xr, size, right, left);
    assert(xl * size * right + xr + idx * right == (xl * size + idx) * right + xr) by (nonlinear_arith);
    assert(0 <= xl * size <= left * size * right) by (nonlinear_arith)
        requires
            0 <= xl < left,
            0 <= xr < right,
            0 <= idx < size,
    ;
    assert(0 <= xl * size * right <= left * size * right) by (nonlinear_arith)
        requires
            0 <= xl < left,
            0 <= xr < right,
            0 <= idx < size,
    ;
    assert(0 <= idx * right <= left * size * right) by (nonlinear_arith)
        requires
            0 <= xl < left,
            0 <= xr < right,
            0 <= idx < size,
    ;
}

/// The line extension depends only on the first k + 1 values.
pub proof fn lemma_line_extend_take(a: Seq<int>, b: Seq<int>, k: nat, n: nat)
    requires
        a.len() >= k + 1,
        b.len() >= k + 1,
        a.take(k as int + 1) == b.take(k as int + 1),
    ensures
        line_extend(a, k, n) == line_extend(b, k, n),
    decreases n,
{
    if n > 0 {
        lemma_line_extend_take(a, b, k, (n - 1) as nat);
        assert(a[0] == a.take(k as int + 1)[0]);
        assert(b[0] == b.take(k as int + 1)[0]);
    }
}

/// An index below left x size x right has its first coordinate below left.
pub proof fn lemma_grid_bound_rev(i: int, size: int, right: int, left: int)
    requires
        0 <= i < left * size * right,
        0 < size,
        0 < right,
    ensures
        (i / right) / size < left,
{
    lemma_grid_decompose(i, size, right);
    let a = (i / right) / size;
    let pos = (i / right) % size;
    let b = i % right;
    if a >= left {
        assert((a * size + pos) * right + b >= left * size * right) by (nonlinear_arith)
            requires
                a >= left,
                0 <= pos,
                0 <= b,
                0 < size,
                0 < right,
        ;
    }
}

/// The extension of an axis reads only the first left x (k+1) x right values.
pub proof fn lemma_extend_axis_prefix(a: Seq<int>, b: Seq<int>, left: nat, right: nat, k: nat, n: nat)
    requires
        0 < right,
        b.len() == left * (k + 1) * right,
        a.len() >= b.len(),
        a.take(b.len() as int) == b,
    ensures
        extend_axis(a, left, right, k, n) == extend_axis(b, left, right, k, n),
{
    let size = (k + n + 1) as int;
    assert forall|i: int| 0 <= i < left * (k + n + 1) * right implies #[trigger] extend_axis(a, left, right, k, n)[i]
        == extend_axis(b, left, right, k, n)[i] by {
        lemma_grid_bound_rev(i, size, right as int, left as int);
        lemma_grid_decompose(i, size, right as int);
        let xa = (i / right as int) / size;
        let xb = i % right as int;
        assert(grid_line(a, xa, xb, k, right) =~= grid_line(b, xa, xb, k, right)) by {
            assert forall|t: int| 0 <= t < k + 1 implies #[trigger] grid_line(a, xa, xb, k, right)[t] == grid_line(b, xa, xb, k, right)[t] by {
                lemma_grid_bound(xa, t, xb, (k + 1) as int, right as int, left as int);
                assert(a[(xa * (k + 1) + t) * right + xb] == a.take(b.len() as int)[(xa * (k + 1) + t) * right + xb]);
            }
        }
    }
    assert(extend_axis(a, left, right, k, n) =~= extend_axis(b, left, right, k, n));
}

/// The sizes of the grids around the extension of axis j.
pub proof fn lemma_axis_sizes(sk: nat, sd: nat, v: nat, j: nat)
    requires
        1 <= sk <= sd,
        1 <= j <= v,
    ensures
        pow(sd as int, (j - 1) as nat) * sk * pow(sk as int, (v - j) as nat) == pow(sd as int, (j - 1) as nat) * pow(
            sk as int,
            (v - j + 1) as nat,
        ),
        pow(sd as int, (j - 1) as nat) * sd * pow(sk as int, (v - j) as nat) == pow(sd as int, j) * pow(
            sk as int,
            (v - j) as nat,
        ),
        pow(sd as int, j) * pow(sk as int, (v - j) as nat) <= pow(sd as int, v),
        pow(sd as int, (j - 1) as nat) * pow(sk as int, (v - j + 1) as nat) <= pow(sd as int, v),
        pow(sd as int, (j - 1) as nat) <= pow(sd as int, v),
        0 < pow(sk as int, (v - j) as nat) <= pow(sd as int, v),
        0 < pow(sd as int, (j - 1) as nat),
{
    let a = pow(sd as int, (j - 1) as nat);
    let b = pow(sk as int, (v - j) as nat);
    vstd::arithmetic::power::lemma_pow_positive(sd as int, (j - 1) as nat);
    vstd::arithmetic::power::lemma_pow_positive(sk as int, (v - j) as nat);
    vstd::arithmetic::power::lemma_pow_positive(sd as int, (v - j) as nat);
    vstd::arithmetic::power::lemma_pow_positive(sd as int, (v - j + 1) as nat);
    vstd::arithmetic::power::lemma_pow1(sk as int);
    vstd::arithmetic::power::lemma_pow1(sd as int);
    vstd::arithmetic::power::lemma_pow_adds(sk as int, 1, (v - j) as nat);
    vstd::arithmetic::power::lemma_pow_adds(sd as int, (j - 1) as nat, 1);
    vstd::arithmetic::power::lemma_pow_adds(sd as int, j, (v - j) as nat);
    vstd::arithmetic::power::lemma_pow_adds(sd as int, (j - 1) as nat, (v - j + 1) as nat);
    lemma_pow_base_mono(sk, sd, (v - j) as nat);
    lemma_pow_base_mono(sk, sd, (v - j + 1) as nat);
    vstd::arithmetic::power::lemma_pow_increases(sd, (j - 1) as nat, v);
    vstd::arithmetic::power::lemma_pow_increases(sd, (v - j) as nat, v);
    assert(a * sk * b == a * (sk * b)) by (nonlinear_arith);
    assert(a * sd * b == (a * sd) * b) by (nonlinear_arith);
    let c = pow(sd as int, j);
    vstd::arithmetic::power::lemma_pow_positive(sd as int, j);
    let e = pow(sd as int, (v - j) as nat);
    assert(c * b <= c * e) by (nonlinear_arith)
        requires
            0 < c,
            b <= e,
    ;
    let f = pow(sk as int, (v - j + 1) as nat);
    let g = pow(sd as int, (v - j + 1) as nat);
    assert(a * f <= a * g) by (nonlinear_arith)
        requires
            0 < a,
            f <= g,
    ;
}

/// A grid of canonical elements holding the extension of the initial grid holds, at
/// each point of U_(k+n)^v, every function of degree at most k per variable that the
/// initial grid holds on U_k^v.
proof fn lemma_extension_holds_f(g0: Seq<StdFr2>, r: Seq<StdFr2>, k: nat, n: nat, v: nat)
    requires
        k <= usize::MAX,
        g0.len() == pow((k + 1) as int, v),
        r.len() == pow((k + n + 1) as int, v),
        elems_canonical(r),
        forall|i: int| 0 <= i < r.len() ==> (#[trigger] r[i]).value() == extend_axes(elems_values(g0), k, n, v, v)[i],
    ensures
        forall|f: spec_fn(Seq<int>) -> int, lc: spec_fn(Seq<int>, int) -> Seq<int>|
            #[trigger] crate::extrapolation::separately_polynomial(f, lc, k, v) && fermat_holds() && 1 <= k && (forall|i: int|
                0 <= i < g0.len() ==> (#[trigger] g0[i]).value() == md(f(crate::grid_values::grid_point(i, k, v))))
                ==> forall|i: int| 0 <= i < r.len() ==> (#[trigger] r[i]).value() == md(
                f(crate::grid_values::grid_point(i, (k + n) as nat, v)),
            ),
{
    assert forall|f: spec_fn(Seq<int>) -> int, lc: spec_fn(Seq<int>, int) -> Seq<int>|
        #[trigger] crate::extrapolation::separately_polynomial(f, lc, k, v) && fermat_holds() && 1 <= k && (forall|i: int|
            0 <= i < g0.len() ==> (#[trigger] g0[i]).value() == md(f(crate::grid_values::grid_point(i, k, v)))) implies forall|i: int|
        0 <= i < r.len() ==> (#[trigger] r[i]).value() == md(f(crate::grid_values::grid_point(i, (k + n) as nat, v))) by {
        let gv = elems_values(g0);
        assert forall|i: int| 0 <= i < gv.len() implies md(#[trigger] gv[i]) == md(f(crate::grid_values::grid_point(i, k, v))) by {
            assert(gv[i] == g0[i].value());
            crate::field_math::lemma_md_idem(f(crate::grid_values::grid_point(i, k, v)));
        }
        crate::extrapolation::lemma_extrapolation_general(gv, f, lc, k, n, v);
        assert forall|i: int| 0 <= i < r.len() implies (#[trigger] r[i]).value() == md(f(crate::grid_values::grid_point(i, (k + n) as nat, v))) by {
            assert(r[i].is_canonical());
            lemma_md_canonical(r[i].value());
        }
    }
}

/// Multivariate extrapolation from U_k^v to U_d^v (d = k + num_extrap): each axis in
/// turn, every line along it extended with the kernel for k, the grid alternating
/// between two buffers.
pub fn multivariate_extrapolate(
    initial_evals: &[StdFr2],
    k: usize,
    num_extrap: usize,
    num_vars: usize,
    kernel_cache: &[Option<KernelData>],
) -> (r: Vec<StdFr2>)
    requires
        k < kernel_cache@.len(),
        kernel_cache@[k as int] matches Some(kd) && kd.is_kernel_for(k as nat),
        k + num_extrap + 1 <= usize::MAX,
        num_vars <= u32::MAX,
        initial_evals@.len() == pow((k + 1) as int, num_vars as nat),
        pow((k + num_extrap + 1) as int, num_vars as nat) <= usize::MAX,
        elems_canonical(initial_evals@),
    ensures
        r@.len() == pow((k + num_extrap + 1) as int, num_vars as nat),
        elems_canonical(r@),
        forall|i: int| 0 <= i < r@.len() ==> (#[trigger] r@[i]).value() == extend_axes(
            elems_values(initial_evals@),
            k as nat,
            num_extrap as nat,
            num_vars as nat,
            num_vars as nat,
        )[i],
        forall|f: spec_fn(Seq<int>) -> int, lc: spec_fn(Seq<int>, int) -> Seq<int>|
            #[trigger] crate::extrapolation::separately_polynomial(f, lc, k as nat, num_vars as nat) && fermat_holds() && 1 <= k
                && (forall|i: int| 0 <= i < initial_evals@.len() ==> (#[trigger] initial_evals@[i]).value() == md(
                f(crate::grid_values::grid_point(i, k as nat, num_vars as nat)),
            )) ==> forall|i: int| 0 <= i < r@.len() ==> (#[trigger] r@[i]).value() == md(
                f(crate::grid_values::grid_point(i, (k + num_extrap) as nat, num_vars as nat)),
            ),
{
    let size_k = k + 1;
    let size_d = k + num_extrap + 1;
    let ghost g0 = elems_values(initial_evals@);
    let ghost sk = size_k as nat;
    let ghost sd = size_d as nat;
    let ghost v = num_vars as nat;
    let kernel_data = kernel_cache[k].as_ref().unwrap();
    let max_size = usize::pow(size_d, num_vars as u32);
    let mut buf_a = vec![StdFr2::zero(); max_size];
    let mut buf_b = vec![StdFr2::zero(); max_size];
    proof {
        lemma_pow_base_mono(sk, sd, v);
        lemma_md_canonical(0);
    }
    for i in 0..initial_evals.len()
        invariant
            initial_evals@.len() <= max_size,
            buf_a@.len() == max_size,
            elems_canonical(initial_evals@),
            elems_canonical(buf_a@),
            forall|ii: int| 0 <= ii < i ==> #[trigger] buf_a@[ii] == initial_evals@[ii],
    {
        buf_a.set(i, initial_evals[i]);
    }
    let mut working_row = vec![StdFr2::zero(); size_d];
    proof {
        vstd::arithmetic::power::lemma_pow0(sd as int);
        assert(pow(sd as int, 0) * pow(sk as int, v) == pow(sk as int, v));
    }
    for jj in 0..num_vars
        invariant
            size_k == k + 1,
            size_d == k + num_extrap + 1,
            sk == size_k,
            sd == size_d,
            v == num_vars,
            1 <= sk <= sd,
            k + num_extrap + 1 <= usize::MAX,
            num_vars <= u32::MAX,
            max_size == pow(sd as int, v),
            kernel_data.is_kernel_for(k as nat),
            buf_a@.len() == max_size,
            buf_b@.len() == max_size,
            working_row@.len() == size_d,
            elems_canonical(buf_a@),
            elems_canonical(buf_b@),
            elems_canonical(working_row@),
            g0 == elems_values(initial_evals@),
            extend_axes(g0, k as nat, num_extrap as nat, v, jj as nat).len() == pow(sd as int, jj as nat) * pow(
                sk as int,
                (v - jj) as nat,
            ),
            pow(sd as int, jj as nat) * pow(sk as int, (v - jj) as nat) <= max_size,
            jj % 2 == 0 ==> forall|i: int| 0 <= i < pow(sd as int, jj as nat) * pow(sk as int, (v - jj) as nat)
                ==> (#[trigger] buf_a@[i]).value() == extend_axes(g0, k as nat, num_extrap as nat, v, jj as nat)[i],
            jj % 2 == 1 ==> forall|i: int| 0 <= i < pow(sd as int, jj as nat) * pow(sk as int, (v - jj) as nat)
                ==> (#[trigger] buf_b@[i]).value() == extend_axes(g0, k as nat, num_extrap as nat, v, jj as nat)[i],
    {
        let j = jj + 1;
        proof {
            lemma_axis_sizes(sk, sd, v, j as nat);
        }
        let left = usize::pow(size_d, (j - 1) as u32);
        let right = usize::pow(size_k, (num_vars - j) as u32);
        if j % 2 == 1 {
            extrapolate_axis(&buf_a, &mut buf_b, &mut working_row, left, right, k, num_extrap, kernel_data);
        } else {
            extrapolate_axis(&buf_b, &mut buf_a, &mut working_row, left, right, k, num_extrap, kernel_data);
        }
        proof {
            let prev = extend_axes(g0, k as nat, num_extrap as nat, v, (j - 1) as nat);
            let cur = extend_axes(g0, k as nat, num_extrap as nat, v, j as nat);
            assert(cur == extend_axis(prev, left as nat, right as nat, k as nat, num_extrap as nat));
            if j % 2 == 1 {
                assert(elems_values(buf_a@).take(prev.len() as int) =~= prev);
                lemma_extend_axis_prefix(elems_values(buf_a@), prev, left as nat, right as nat, k as nat, num_extrap as nat);
            } else {
                assert(elems_values(buf_b@).take(prev.len() as int) =~= prev);
                lemma_extend_axis_prefix(elems_values(buf_b@), prev, left as nat, right as nat, k as nat, num_extrap as nat);
            }
        }
    }
    proof {
        vstd::arithmetic::power::lemma_pow0(sk as int);
    }
    let r = if num_vars % 2 == 1 {
        buf_b
    } else {
        buf_a
    };
    proof {
        lemma_extension_holds_f(initial_evals@, r@, k as nat, num_extrap as nat, v);
    }
    r
}

// ================================================================================
// MultiProductEval: the product of d multilinear polynomials on U_d^v.
// ================================================================================

/// One relayout pass at stride s: in every block of 2s values, the pair (p0, p1) at
/// distance s becomes (p1 - p0, p0), the layout of U_1 = {inf, 0} along that variable.
pub open spec fn relayout_step(g: Seq<int>, s: nat) -> Seq<int> {
    Seq::new(
        g.len(),
        |idx: int|
            {
                let c = (idx / s as int) / 2;
                let h = (idx / s as int) % 2;
                let i = idx % s as int;
                if h == 0 {
                    md(g[(c * 2 + 1) * s + i] - g[(c * 2) * s + i])
                } else {
                    g[(c * 2) * s + i]
                }
            },
    )
}

/// The first m relayout passes, at strides 1, 2, ..., 2^(m-1).
pub open spec fn relayout(g: Seq<int>, m: nat) -> Seq<int>
    decreases m,
{
    if m == 0 {
        g
    } else {
        relayout_step(relayout(g, (m - 1) as nat), pow2((m - 1) as nat))
    }
}

/// The evaluations over U_d^v of the product of the d tables: one table relaid onto
/// U_1^v; otherwise the products of the two halves, each extended to U_d^v, multiplied
/// pointwise.
pub open spec fn product_grid(polys: Seq<Seq<int>>, d: nat, v: nat) -> Seq<int>
    decreases d,
{
    if d <= 1 {
        relayout(polys[0], v)
    } else {
        let m = d / 2;
        let lp = extend_axes(product_grid(polys.subrange(0, m as int), m, v), m, (d - m) as nat, v, v);
        let rp = extend_axes(product_grid(polys.subrange(m as int, d as int), (d - m) as nat, v), (d - m) as nat, m, v, v);
        Seq::new(lp.len(), |i: int| md(lp[i] * rp[i]))
    }
}

/// One relayout pass of `current` into `next`.
fn relayout_pass(current: &Vec<StdFr2>, next: &mut Vec<StdFr2>, stride: usize, u_1_domain: &Vec<EvaluationPoint>)
    requires
        0 < stride,
        2 * stride <= usize::MAX,
        current@.len() == old(next)@.len(),
        (current@.len() as int) % ((2 * stride) as int) == 0,
        u_1_domain@ == u_domain(1),
        elems_canonical(current@),
        elems_canonical(old(next)@),
    ensures
        final(next)@.len() == current@.len(),
        elems_canonical(final(next)@),
        forall|idx: int| 0 <= idx < current@.len() ==> (#[trigger] final(next)@[idx]).value() == relayout_step(
            elems_values(current@),
            stride as nat,
        )[idx],
{
    let len = current.len();
    let chunk_size = stride * 2;
    let num_chunks = len / chunk_size;
    let ghost cv = elems_values(current@);
    let ghost spec = relayout_step(cv, stride as nat);
    proof {
        vstd::arithmetic::div_mod::lemma_fundamental_div_mod(len as int, chunk_size as int);
        assert(len == num_chunks * 2 * stride) by (nonlinear_arith)
            requires
                len == chunk_size * num_chunks,
                chunk_size == stride * 2,
        ;
    }
    for chunk in 0..num_chunks
        invariant
            len == current@.len(),
            next@.len() == len,
            chunk_size == 2 * stride,
            0 < stride,
            len == num_chunks * 2 * stride,
            u_1_domain@ == u_domain(1),
            cv == elems_values(current@),
            spec == relayout_step(cv, stride as nat),
            elems_canonical(current@),
            elems_canonical(next@),
            forall|idx: int| 0 <= idx < len && (idx / stride as int) / 2 < chunk ==> (#[trigger] next@[idx]).value() == spec[idx],
    {
        proof {
            assert(chunk * chunk_size + chunk_size <= len) by (nonlinear_arith)
                requires
                    chunk < num_chunks,
                    len == num_chunks * 2 * stride,
                    chunk_size == 2 * stride,
            ;
        }
        let offset = chunk * chunk_size;
        for i in 0..stride
            invariant
                len == current@.len(),
                next@.len() == len,
                chunk_size == 2 * stride,
                0 < stride,
                0 <= chunk < num_chunks,
                offset == chunk * chunk_size,
                offset + chunk_size <= len,
                len == num_chunks * 2 * stride,
                u_1_domain@ == u_domain(1),
                cv == elems_values(current@),
                spec == relayout_step(cv, stride as nat),
                elems_canonical(current@),
                elems_canonical(next@),
                forall|idx: int| 0 <= idx < len && ((idx / stride as int) / 2 < chunk || ((idx / stride as int) / 2 == chunk
                    && idx % (stride as int) < i)) ==> (#[trigger] next@[idx]).value() == spec[idx],
        {
            proof {
                lemma_offset_bounds(chunk as int, 2, stride as int, num_chunks as int, i as int, 0);
                lemma_offset_bounds(chunk as int, 2, stride as int, num_chunks as int, i as int, 1);
                lemma_grid_coords(chunk as int, 0, i as int, 2, stride as int);
                lemma_grid_coords(chunk as int, 1, i as int, 2, stride as int);
                assert(offset == chunk * 2 * stride) by (nonlinear_arith)
                    requires
                        offset == chunk * chunk_size,
                        chunk_size == 2 * stride,
                ;
            }
            let p0 = current[offset + i];
            let p1 = current[offset + stride + i];
            let p_inf = fr_sub(&p1, &p0);
            let ghost j0 = (offset + i) as int;
            let ghost j1 = (offset + stride + i) as int;
            let ghost before = next@;
            proof {
                lemma_fe_sub_md(p1.value(), p0.value());
                assert(j0 == (chunk * 2 + 0) * stride + i) by (nonlinear_arith)
                    requires
                        offset == chunk * 2 * stride,
                        j0 == offset + i,
                ;
                assert(j1 == (chunk * 2 + 1) * stride + i) by (nonlinear_arith)
                    requires
                        offset == chunk * 2 * stride,
                        j1 == offset + stride + i,
                ;
            }
            for u_idx in 0..2
                invariant
                    u_1_domain@ == u_domain(1),
                    0 < stride,
                    next@.len() == len,
                    offset + 2 * stride <= len,
                    i < stride,
                    j0 == offset + i,
                    j1 == offset + stride + i,
                    elems_canonical(next@),
                    p0.is_canonical(),
                    p_inf.is_canonical(),
                    forall|idx: int| 0 <= idx < len && idx != j0 && idx != j1 ==> #[trigger] next@[idx] == before[idx],
                    u_idx > 0 ==> next@[j0] == p_inf,
                    u_idx > 1 ==> next@[j1] == p0,
            {
                proof {
                    assert(u_1_domain@[0] == EvaluationPoint::Infinity);
                    assert(u_1_domain@[1] == EvaluationPoint::Value(0));
                    if u_idx == 1 {
                        assert(offset + u_idx * stride + i == j1);
                    } else {
                        assert(offset + u_idx * stride + i == j0);
                    }
                }
                match u_1_domain[u_idx] {
                    EvaluationPoint::Infinity => {
                        next.set(offset + u_idx * stride + i, p_inf);
                    },
                    EvaluationPoint::Value(_) => {
                        next.set(offset + u_idx * stride + i, p0);
                    },
                }
            }
            proof {
                assert forall|idx: int| 0 <= idx < len && ((idx / stride as int) / 2 < chunk || ((idx / stride as int) / 2 == chunk
                    && idx % (stride as int) < i + 1)) implies (#[trigger] next@[idx]).value() == spec[idx] by {
                    lemma_grid_decompose(idx, 2, stride as int);
                    if idx == j0 || idx == j1 {
                        assert(cv[(chunk * 2 + 1) * stride + i] == p1.value());
                        assert(cv[(chunk * 2) * stride + i] == p0.value());
                    } else {
                        if (idx / stride as int) / 2 == chunk && idx % (stride as int) == i {
                            assert(idx == j0 || idx == j1);
                        }
                    }
                }
            }
        }
    }
    proof {
        assert forall|idx: int| 0 <= idx < len implies (#[trigger] next@[idx]).value() == spec[idx] by {
            lemma_grid_bound_rev(idx, 2, stride as int, num_chunks as int);
        }
    }
}

pub proof fn lemma_relayout_len(g: Seq<int>, m: nat)
    ensures
        relayout(g, m).len() == g.len(),
    decreases m,
{
    if m > 0 {
        lemma_relayout_len(g, (m - 1) as nat);
    }
}

pub proof fn lemma_extend_axes_len(g: Seq<int>, k: nat, n: nat, v: nat, j: nat)
    requires
        j <= v,
        g.len() == pow((k + 1) as int, v),
    ensures
        extend_axes(g, k, n, v, j).len() == pow((k + n + 1) as int, j) * pow((k + 1) as int, (v - j) as nat),
    decreases j,
{
    if j == 0 {
        vstd::arithmetic::power::lemma_pow0((k + n + 1) as int);
    } else {
        lemma_extend_axes_len(g, k, n, v, (j - 1) as nat);
        lemma_axis_sizes(k + 1, k + n + 1, v, j);
    }
}

pub proof fn lemma_product_grid_len(polys: Seq<Seq<int>>, d: nat, v: nat)
    requires
        polys.len() == d,
        d >= 1,
        forall|k: int| 0 <= k < d ==> (#[trigger] polys[k]).len() == pow2(v),
    ensures
        product_grid(polys, d, v).len() == pow((d + 1) as int, v),
    decreases d,
{
    if d <= 1 {
        lemma_relayout_len(polys[0], v);
        vstd::arithmetic::power2::lemma_pow2(v);
    } else {
        let m = d / 2;
        lemma_product_grid_len(polys.subrange(0, m as int), m, v);
        lemma_product_grid_len(polys.subrange(m as int, d as int), (d - m) as nat, v);
        lemma_extend_axes_len(product_grid(polys.subrange(0, m as int), m, v), m, (d - m) as nat, v, v);
        vstd::arithmetic::power::lemma_pow0((m + 1) as int);
    }
}

/// Under Fermat, a grid of canonical elements holding the product grid holds, at each
/// point of U_d^v, the product of the tables' multilinear functions.
proof fn lemma_grid_holds_products(g: Seq<StdFr2>, pv: Seq<Seq<int>>, d: nat, v: nat)
    requires
        pv.len() == d,
        1 <= d <= usize::MAX,
        forall|k: int| 0 <= k < d ==> (#[trigger] pv[k]).len() == pow2(v),
        g.len() == pow((d + 1) as int, v),
        elems_canonical(g),
        forall|i: int| 0 <= i < g.len() ==> (#[trigger] g[i]).value() == product_grid(pv, d, v)[i],
    ensures
        fermat_holds() ==> forall|i: int| 0 <= i < g.len() ==> (#[trigger] g[i]).value() == md(
            crate::grid_values::prod_value(pv, crate::grid_values::grid_point(i, d, v)),
        ),
{
    if fermat_holds() {
        crate::grid_values::lemma_product_grid_values(pv, d, v);
        assert forall|i: int| 0 <= i < g.len() implies (#[trigger] g[i]).value() == md(
            crate::grid_values::prod_value(pv, crate::grid_values::grid_point(i, d, v)),
        ) by {
            assert(g[i].is_canonical());
            lemma_md_canonical(g[i].value());
        }
    }
}

/// MultiProductEval (Procedure 1): the evaluations over U_d^v of the product of the d
/// multilinear polynomials given by their tables over {0,1}^v, by splitting the
/// product in two halves, extending each half's grid to U_d^v, and multiplying
/// pointwise.
pub fn multi_product_eval(
    polynomials: &[Vec<StdFr2>],
    d: usize,
    v: usize,
    kernel_cache: &[Option<KernelData>],
) -> (g: Vec<StdFr2>)
    requires
        polynomials@.len() == d,
        d > 0,
        d + 1 <= usize::MAX,
        v < usize::BITS,
        pow((d + 1) as int, v as nat) <= usize::MAX,
        forall|k: int| 0 <= k < d ==> (#[trigger] polynomials@[k])@.len() == pow2(v as nat),
        forall|k: int| 0 <= k < d ==> elems_canonical(#[trigger] polynomials@[k]@),
        forall|kk: int| 1 <= kk < d ==> kk < kernel_cache@.len() && (#[trigger] kernel_cache@[kk] matches Some(kd)
            && kd.is_kernel_for(kk as nat)),
    ensures
        g@.len() == pow((d + 1) as int, v as nat),
        elems_canonical(g@),
        forall|i: int| 0 <= i < g@.len() ==> (#[trigger] g@[i]).value() == product_grid(polys_values(polynomials@), d as nat, v as nat)[i],
        fermat_holds() ==> forall|i: int| 0 <= i < g@.len() ==> (#[trigger] g@[i]).value() == md(
            crate::grid_values::prod_value(polys_values(polynomials@), crate::grid_values::grid_point(i, d as nat, v as nat)),
        ),
    decreases d,
{
    let ghost pv = polys_values(polynomials@);
    proof {
        assert forall|k: int| 0 <= k < d implies (#[trigger] pv[k]).len() == pow2(v as nat) by {
            assert(pv[k] == values_of(polynomials@[k]@));
        }
        lemma_product_grid_len(pv, d as nat, v as nat);
    }
    if d == 1 {
        let len = polynomials[0].len();
        let u_1_domain = get_u_domain(1);
        let mut buf_a = vstd::slice::slice_to_vec(polynomials[0].as_slice());
        let mut buf_b = vec![StdFr2::zero(); len];
        let ghost p0 = pv[0];
        proof {
            lemma_md_canonical(0);
            assert(p0 == values_of(polynomials@[0]@));
            assert(elems_values(buf_a@) =~= relayout(p0, 0));
        }
        for var in 0..v
            invariant
                len == pow2(v as nat),
                v < usize::BITS,
                u_1_domain@ == u_domain(1),
                buf_a@.len() == len,
                buf_b@.len() == len,
                elems_canonical(buf_a@),
                elems_canonical(buf_b@),
                p0.len() == len,
                var % 2 == 0 ==> elems_values(buf_a@) == relayout(p0, var as nat),
                var % 2 == 1 ==> elems_values(buf_b@) == relayout(p0, var as nat),
        {
            proof {
                vstd::arithmetic::power2::lemma_pow2(var as nat);
                vstd::bits::lemma_usize_pow2_no_overflow((var + 1) as nat);
                vstd::arithmetic::power2::lemma_pow2_unfold((var + 1) as nat);
                vstd::arithmetic::power2::lemma_pow2_adds((var + 1) as nat, (v - var - 1) as nat);
                vstd::arithmetic::div_mod::lemma_mod_multiples_basic(pow2((v - var - 1) as nat) as int, pow2((var + 1) as nat) as int);
                vstd::arithmetic::power2::lemma_pow2_pos(var as nat);
                vstd::arithmetic::mul::lemma_mul_is_commutative(pow2((var + 1) as nat) as int, pow2((v - var - 1) as nat) as int);
                lemma_relayout_len(p0, var as nat);
            }
            let stride = usize::pow(2, var as u32);
            if var % 2 == 0 {
                relayout_pass(&buf_a, &mut buf_b, stride, &u_1_domain);
                proof {
                    assert(elems_values(buf_b@) =~= relayout(p0, (var + 1) as nat));
                }
            } else {
                relayout_pass(&buf_b, &mut buf_a, stride, &u_1_domain);
                proof {
                    assert(elems_values(buf_a@) =~= relayout(p0, (var + 1) as nat));
                }
            }
        }
        proof {
            vstd::arithmetic::power2::lemma_pow2(v as nat);
        }
        let g = if v % 2 == 0 {
            buf_a
        } else {
            buf_b
        };
        proof {
            lemma_grid_holds_products(g@, pv, d as nat, v as nat);
        }
        return g;
    }
    let m = d / 2;
    let left_polys = vstd::slice::slice_subrange(polynomials, 0, m);
    let right_polys = vstd::slice::slice_subrange(polynomials, m, d);
    proof {
        lemma_pow_base_mono((m + 1) as nat, (d + 1) as nat, v as nat);
        lemma_pow_base_mono((d - m + 1) as nat, (d + 1) as nat, v as nat);
        assert(polys_values(left_polys@) =~= pv.subrange(0, m as int));
        assert(polys_values(right_polys@) =~= pv.subrange(m as int, d as int));
    }
    let q_l = multi_product_eval(left_polys, m, v, kernel_cache);
    let q_r = multi_product_eval(right_polys, d - m, v, kernel_cache);
    proof {
        assert(kernel_cache@[m as int] matches Some(kd) && kd.is_kernel_for(m as nat));
        assert(kernel_cache@[(d - m) as int] matches Some(kd) && kd.is_kernel_for((d - m) as nat));
        lemma_product_grid_len(pv.subrange(0, m as int), m as nat, v as nat);
        lemma_product_grid_len(pv.subrange(m as int, d as int), (d - m) as nat, v as nat);
        assert(elems_values(q_l@) =~= product_grid(pv.subrange(0, m as int), m as nat, v as nat));
        assert(elems_values(q_r@) =~= product_grid(pv.subrange(m as int, d as int), (d - m) as nat, v as nat));
    }
    let q_l_prime = multivariate_extrapolate(q_l.as_slice(), m, d - m, v, kernel_cache);
    let q_r_prime = multivariate_extrapolate(q_r.as_slice(), d - m, m, v, kernel_cache);
    let ghost lp = extend_axes(product_grid(pv.subrange(0, m as int), m as nat, v as nat), m as nat, (d - m) as nat, v as nat, v as nat);
    let ghost rp = extend_axes(product_grid(pv.subrange(m as int, d as int), (d - m) as nat, v as nat), (d - m) as nat, m as nat, v as nat, v as nat);
    proof {
        assert((d - m + m + 1) == d + 1);
    }
    let mut g: Vec<StdFr2> = Vec::new();
    for i in 0..q_l_prime.len()
        invariant
            q_l_prime@.len() == pow((d + 1) as int, v as nat),
            q_r_prime@.len() == pow((d + 1) as int, v as nat),
            elems_canonical(q_l_prime@),
            elems_canonical(q_r_prime@),
            forall|ii: int| 0 <= ii < q_l_prime@.len() ==> (#[trigger] q_l_prime@[ii]).value() == lp[ii],
            forall|ii: int| 0 <= ii < q_r_prime@.len() ==> (#[trigger] q_r_prime@[ii]).value() == rp[ii],
            g@.len() == i,
            elems_canonical(g@),
            forall|ii: int| 0 <= ii < i ==> (#[trigger] g@[ii]).value() == md(lp[ii] * rp[ii]),
    {
        let prod = fr_mul(&q_l_prime[i], &q_r_prime[i]);
        proof {
            lemma_md_canonical(q_l_prime@[i as int].value());
            lemma_md_canonical(q_r_prime@[i as int].value());
            lemma_fe_mul_md(q_l_prime@[i as int].value(), q_r_prime@[i as int].value(), lp[i as int], rp[i as int]);
        }
        g.push(prod);
    }
    proof {
        lemma_grid_holds_products(g@, pv, d as nat, v as nat);
    }
    g
}

/// Extrapolation is exact. When a line holds the coefficient of X^k and the values at
/// 0, ..., k-1 of a polynomial of degree at most k, its extension by n points holds the
/// polynomial's values at k, ..., k + n - 1, modulo p (in the field: Fermat's little
/// theorem assumed).
pub proof fn lemma_line_extend_exact(c: Seq<int>, w: Seq<int>, k: nat, n: nat)
    requires
        fermat_holds(),
        1 <= k <= usize::MAX,
        c.len() <= k + 1,
        w.len() >= k + 1,
        md(w[0]) == md(coef(c, k as int)),
        forall|t: int| 0 <= t < k ==> md(#[trigger] w[1 + t]) == md(peval(c, t)),
    ensures
        line_extend(w, k, n).len() == k + 1 + n,
        forall|x: int| 0 <= x < k + n ==> md(#[trigger] line_extend(w, k, n)[1 + x]) == md(peval(c, x)),
    decreases n,
{
    lemma_line_extend_len(w, k, n);
    if n > 0 {
        let m = (n - 1) as nat;
        lemma_line_extend_exact(c, w, k, m);
        let e = line_extend(w, k, m);
        lemma_line_extend_len(w, k, m);
        let g = pshift(c, m as int);
        crate::bigint_field::lemma_modulus_val();
        lemma_pshift(c, m as int, k as int);
        lemma_lagrange_infinity(g, k, k as int);
        // The leading coefficient survives the shift.
        assert(coef(g, k as int) == coef(c, k as int)) by {
            if c.len() == k + 1 {
            } else {
                assert(g.len() <= k);
            }
        }
        // The window holds the shifted polynomial's values at 0, ..., k-1.
        let lhs = |t: int| e[n + t] * kernel_classical_values(k)[t];
        let rhs = |t: int| peval(g, t) * lagrange_coeff(k as int, t, k);
        assert forall|t: int| 0 <= t < k implies md(#[trigger] lhs(t)) == md(rhs(t)) by {
            lemma_pshift(c, m as int, t);
            assert(e[1 + (m + t)] == e[n + t]);
            assert(md(e[n + t]) == md(peval(c, m + t)));
            assert(m + t == t + m);
            lemma_basis_den_nonzero(t, k);
            crate::field_math::lemma_md_range(basis_den(t, k));
            lemma_field_inv_fermat(md(basis_den(t, k)) as nat);
            assert(lagrange_coeff_inv(k as int, t, k) == lagrange_coeff(k as int, t, k));
            let a = e[n + t];
            let b = lagrange_coeff(k as int, t, k);
            lemma_md_mul(a, b);
            lemma_md_mul(peval(g, t), b);
        }
        crate::completeness::lemma_sum_congruent(k, lhs, rhs);
        assert(Seq::new(k, window_terms(e, n as int, k)) =~= Seq::new(k, lhs));
        assert(Seq::new(k, rhs) =~= Seq::new(k, |i: int| peval(g, i) * lagrange_coeff(k as int, i, k)));
        let vk = vanishing_prod(k as int, k);
        lemma_md_mul(w[0], vk);
        lemma_md_mul(coef(c, k as int), vk);
        lemma_md_mul(w[0], md(vk));
        crate::field_math::lemma_md_add(w[0] * kernel_inf_value(k), seq_sum(Seq::new(k, lhs)));
        crate::field_math::lemma_md_add(coef(g, k as int) * vk, seq_sum(Seq::new(k, rhs)));
        crate::field_math::lemma_md_idem(w[0] * kernel_inf_value(k) + seq_sum(Seq::new(k, lhs)));
        assert(line_extend(w, k, n)[(1 + k + m) as int] == md(w[0] * kernel_inf_value(k) + seq_sum(Seq::new(k, lhs))));
        assert forall|x: int| 0 <= x < k + n implies md(#[trigger] line_extend(w, k, n)[1 + x]) == md(peval(c, x)) by {
            if x < k + m {
                assert(line_extend(w, k, n)[1 + x] == e[1 + x]);
            } else {
                assert(x == k + m);
                assert(peval(c, x) == peval(g, k as int));
            }
        }
    }
}

} // verus!
