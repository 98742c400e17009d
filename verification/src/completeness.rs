//! Completeness of the linear-time sum-check: with an honest prover and the true sum
//! over the hypercube as the claim, every round's interpolated claim is the sum over
//! the folded tables, and the last claim is the product of the multilinear extensions
//! at the challenges, whatever the challenges are.
use crate::bigint_field::modulus;
use crate::sumcheck_model::{
    claim_after,
    reconstruct_s0,
    claim_after_inv,
    interpolate_inv,
    lagrange_partial_inv,
    fold_all,
    fold_once,
    fold_prefix,
    fold_tables,
    interpolate,
    lagrange_partial,
    mle_eval,
    node_value,
    oracle_value,
    pair_term,
    product_prefix,
    round_message,
    round_sum,
};
use crate::engine::{u_hat_domain, EvaluationPoint};
use crate::field_math::{lemma_md_add, lemma_md_idem, lemma_md_mul, lemma_seq_prod_new_step, lemma_seq_sum_new_step, md, seq_prod, seq_sum};
use crate::poly::{
    basis_den,
    coef,
    lagrange_coeff_inv,
    lemma_basis_den_nonzero,
    lemma_field_inv_fermat,
    fermat_holds,
    lemma_lagrange_infinity,
    lemma_md_sub,
    lemma_peval_mul_lin,
    lemma_peval_padd,
    lagrange_coeff,
    padd,
    peval,
    pmul_lin,
    vanishing_prod,
};
use vstd::arithmetic::mul::{lemma_mul_basics, lemma_mul_is_commutative};
use vstd::arithmetic::power2::{lemma_pow2_unfold, pow2};
use vstd::prelude::*;

verus! {

// ================================================================================
// The claimed sum.
// ================================================================================

/// The values of the tables at point x of the hypercube.
pub open spec fn column(tv: Seq<Seq<int>>, x: int) -> spec_fn(int) -> int {
    |k: int| tv[k][x]
}

/// The product of the tables at point x: prod_k p_k(x).
pub open spec fn point_prod(tv: Seq<Seq<int>>, x: int) -> int {
    seq_prod(Seq::new(tv.len(), column(tv, x)))
}

/// The products at every point.
pub open spec fn point_prods(tv: Seq<Seq<int>>) -> spec_fn(int) -> int {
    |x: int| point_prod(tv, x)
}

/// sum_{x < size} prod_k p_k(x): the sum that an honest prover claims, over a
/// hypercube of `size` points.
pub open spec fn table_sum(tv: Seq<Seq<int>>, size: nat) -> int {
    seq_sum(Seq::new(size, point_prods(tv)))
}

// ================================================================================
// Congruences of sums and products.
// ================================================================================

pub proof fn lemma_sum_congruent(n: nat, f: spec_fn(int) -> int, g: spec_fn(int) -> int)
    requires
        forall|j: int| 0 <= j < n ==> md(#[trigger] f(j)) == md(g(j)),
    ensures
        md(seq_sum(Seq::new(n, f))) == md(seq_sum(Seq::new(n, g))),
    decreases n,
{
    if n > 0 {
        let m = (n - 1) as nat;
        lemma_seq_sum_new_step(m, f);
        lemma_seq_sum_new_step(m, g);
        lemma_sum_congruent(m, f, g);
        lemma_md_add(seq_sum(Seq::new(m, f)), f(m as int));
        lemma_md_add(seq_sum(Seq::new(m, g)), g(m as int));
    }
}

pub proof fn lemma_prod_congruent(n: nat, f: spec_fn(int) -> int, g: spec_fn(int) -> int)
    requires
        forall|j: int| 0 <= j < n ==> md(#[trigger] f(j)) == md(g(j)),
    ensures
        md(seq_prod(Seq::new(n, f))) == md(seq_prod(Seq::new(n, g))),
    decreases n,
{
    if n > 0 {
        let m = (n - 1) as nat;
        lemma_seq_prod_new_step(m, f);
        lemma_seq_prod_new_step(m, g);
        lemma_prod_congruent(m, f, g);
        lemma_md_mul(seq_prod(Seq::new(m, f)), f(m as int));
        lemma_md_mul(seq_prod(Seq::new(m, g)), g(m as int));
    }
}

/// A sum over 2h points split into its even and odd points.
pub proof fn lemma_sum_even_odd(h: nat, f: spec_fn(int) -> int)
    ensures
        seq_sum(Seq::new(2 * h, f)) == seq_sum(Seq::new(h, |x: int| f(2 * x))) + seq_sum(
            Seq::new(h, |x: int| f(2 * x + 1)),
        ),
    decreases h,
{
    if h == 0 {
        assert(Seq::new(0, f) =~= Seq::<int>::empty());
        assert(Seq::new(0, |x: int| f(2 * x)) =~= Seq::<int>::empty());
        assert(Seq::new(0, |x: int| f(2 * x + 1)) =~= Seq::<int>::empty());
    } else {
        let m = (h - 1) as nat;
        lemma_sum_even_odd(m, f);
        lemma_seq_sum_new_step((2 * m) as nat, f);
        lemma_seq_sum_new_step((2 * m + 1) as nat, f);
        lemma_seq_sum_new_step(m, |x: int| f(2 * x));
        lemma_seq_sum_new_step(m, |x: int| f(2 * x + 1));
    }
}

// ================================================================================
// The round polynomial as coefficients.
// ================================================================================

/// The table values on the line through the pair (2x, 2x+1), at y:
/// k |-> p_k(2x) + y (p_k(2x+1) - p_k(2x)).
pub open spec fn line_at(t: Seq<Seq<int>>, x: int, y: int) -> spec_fn(int) -> int {
    |k: int| t[k][2 * x] + y * (t[k][2 * x + 1] - t[k][2 * x])
}

/// The coefficients of prod_{k < n} (p_k(2x) + X (p_k(2x+1) - p_k(2x))).
pub open spec fn pair_poly(t: Seq<Seq<int>>, x: int, n: nat) -> Seq<int>
    decreases n,
{
    if n == 0 {
        seq![1int]
    } else {
        let k = n - 1;
        pmul_lin(pair_poly(t, x, (n - 1) as nat), t[k][2 * x], t[k][2 * x + 1] - t[k][2 * x])
    }
}

/// The slopes of the lines at the pair (2x, 2x+1).
pub open spec fn slopes(t: Seq<Seq<int>>, x: int) -> spec_fn(int) -> int {
    |k: int| t[k][2 * x + 1] - t[k][2 * x]
}

pub proof fn lemma_pair_poly(t: Seq<Seq<int>>, x: int, n: nat, y: int)
    ensures
        pair_poly(t, x, n).len() == n + 1,
        peval(pair_poly(t, x, n), y) == seq_prod(Seq::new(n, line_at(t, x, y))),
        coef(pair_poly(t, x, n), n as int) == seq_prod(Seq::new(n, slopes(t, x))),
    decreases n,
{
    if n == 0 {
        crate::poly::lemma_peval_const(1, y);
        assert(Seq::new(0, line_at(t, x, y)) =~= Seq::<int>::empty());
        assert(Seq::new(0, slopes(t, x)) =~= Seq::<int>::empty());
    } else {
        let m = (n - 1) as nat;
        let c = pair_poly(t, x, m);
        let a = t[m as int][2 * x];
        let b = t[m as int][2 * x + 1] - t[m as int][2 * x];
        lemma_pair_poly(t, x, m, y);
        lemma_peval_mul_lin(c, a, b, y);
        lemma_seq_prod_new_step(m, line_at(t, x, y));
        lemma_seq_prod_new_step(m, slopes(t, x));
        lemma_mul_is_commutative(a + b * y, peval(c, y));
        assert(line_at(t, x, y)(m as int) == a + y * b);
        lemma_mul_is_commutative(y, b);
        let r = pmul_lin(c, a, b);
        assert(r[n as int] == a * coef(c, n as int) + b * coef(c, m as int));
        lemma_mul_basics(a);
        lemma_mul_is_commutative(b, coef(c, m as int));
    }
}

/// sum_{x < half} of the pair polynomials: the round polynomial s(X) of the tables.
pub open spec fn round_poly(t: Seq<Seq<int>>, half: nat) -> Seq<int>
    decreases half,
{
    if half == 0 {
        Seq::empty()
    } else {
        padd(round_poly(t, (half - 1) as nat), pair_poly(t, half - 1, t.len()))
    }
}

/// The pair polynomials' values at y, indexed by x.
pub open spec fn pair_values(t: Seq<Seq<int>>, y: int) -> spec_fn(int) -> int {
    |x: int| peval(pair_poly(t, x, t.len()), y)
}

/// The pair polynomials' leading coefficients, indexed by x.
pub open spec fn pair_leads(t: Seq<Seq<int>>) -> spec_fn(int) -> int {
    |x: int| coef(pair_poly(t, x, t.len()), t.len() as int)
}

pub proof fn lemma_round_poly(t: Seq<Seq<int>>, half: nat, y: int)
    ensures
        round_poly(t, half).len() <= t.len() + 1,
        peval(round_poly(t, half), y) == seq_sum(Seq::new(half, pair_values(t, y))),
        coef(round_poly(t, half), t.len() as int) == seq_sum(Seq::new(half, pair_leads(t))),
    decreases half,
{
    if half == 0 {
        assert(Seq::new(0, pair_values(t, y)) =~= Seq::<int>::empty());
        assert(Seq::new(0, pair_leads(t)) =~= Seq::<int>::empty());
    } else {
        let m = (half - 1) as nat;
        lemma_round_poly(t, m, y);
        lemma_pair_poly(t, m as int, t.len(), y);
        lemma_peval_padd(round_poly(t, m), pair_poly(t, m as int, t.len()), y);
        lemma_seq_sum_new_step(m, pair_values(t, y));
        lemma_seq_sum_new_step(m, pair_leads(t));
    }
}

/// The sums the prover sends are values and the leading coefficient of the round
/// polynomial.
pub proof fn lemma_round_sum_is_poly(t: Seq<Seq<int>>, half: nat, v: u64)
    ensures
        round_sum(t, half, EvaluationPoint::Value(v)) == peval(round_poly(t, half), v as int),
        round_sum(t, half, EvaluationPoint::Infinity) == coef(round_poly(t, half), t.len() as int),
{
    lemma_round_poly(t, half, v as int);
    let fv = |x: int| product_prefix(t, x, EvaluationPoint::Value(v), t.len());
    let fi = |x: int| product_prefix(t, x, EvaluationPoint::Infinity, t.len());
    assert forall|x: int| 0 <= x < half implies #[trigger] fv(x) == pair_values(t, v as int)(x) by {
        lemma_pair_poly(t, x, t.len(), v as int);
        assert(Seq::new(t.len(), |k: int| pair_term(t, k, x, EvaluationPoint::Value(v))) =~= Seq::new(
            t.len(),
            line_at(t, x, v as int),
        ));
    }
    assert forall|x: int| 0 <= x < half implies #[trigger] fi(x) == pair_leads(t)(x) by {
        lemma_pair_poly(t, x, t.len(), v as int);
        assert(Seq::new(t.len(), |k: int| pair_term(t, k, x, EvaluationPoint::Infinity)) =~= Seq::new(
            t.len(),
            slopes(t, x),
        ));
    }
    assert(Seq::new(half, fv) =~= Seq::new(half, pair_values(t, v as int)));
    assert(Seq::new(half, fi) =~= Seq::new(half, pair_leads(t)));
}

/// The claimed sum over 2 half points is s(0) + s(1).
pub proof fn lemma_table_sum_split(t: Seq<Seq<int>>, half: nat)
    ensures
        table_sum(t, 2 * half) == peval(round_poly(t, half), 0) + peval(round_poly(t, half), 1),
{
    lemma_sum_even_odd(half, point_prods(t));
    lemma_round_poly(t, half, 0);
    lemma_round_poly(t, half, 1);
    assert forall|x: int| 0 <= x < half implies #[trigger] point_prods(t)(2 * x) == pair_values(t, 0)(x) by {
        lemma_pair_poly(t, x, t.len(), 0);
        assert forall|k: int| 0 <= k < t.len() implies #[trigger] column(t, 2 * x)(k) == line_at(t, x, 0)(k) by {
            lemma_mul_basics(t[k][2 * x + 1] - t[k][2 * x]);
        }
        assert(Seq::new(t.len(), column(t, 2 * x)) =~= Seq::new(t.len(), line_at(t, x, 0)));
    }
    assert forall|x: int| 0 <= x < half implies #[trigger] point_prods(t)(2 * x + 1) == pair_values(t, 1)(x) by {
        lemma_pair_poly(t, x, t.len(), 1);
        assert forall|k: int| 0 <= k < t.len() implies #[trigger] column(t, 2 * x + 1)(k) == line_at(t, x, 1)(k) by {
            lemma_mul_basics(t[k][2 * x + 1] - t[k][2 * x]);
        }
        assert(Seq::new(t.len(), column(t, 2 * x + 1)) =~= Seq::new(t.len(), line_at(t, x, 1)));
    }
    assert(Seq::new(half, |x: int| point_prods(t)(2 * x)) =~= Seq::new(half, pair_values(t, 0)));
    assert(Seq::new(half, |x: int| point_prods(t)(2 * x + 1)) =~= Seq::new(half, pair_values(t, 1)));
}

/// The claimed sum over the folded tables is s(r), modulo p.
pub proof fn lemma_table_sum_folded(t: Seq<Seq<int>>, r: int, half: nat)
    requires
        forall|k: int| 0 <= k < t.len() ==> (#[trigger] t[k]).len() >= 2 * half,
    ensures
        md(table_sum(fold_tables(t, r, half), half)) == md(peval(round_poly(t, half), r)),
{
    let ft = fold_tables(t, r, half);
    lemma_round_poly(t, half, r);
    assert forall|x: int| 0 <= x < half implies md(#[trigger] point_prods(ft)(x)) == md(pair_values(t, r)(x)) by {
        lemma_pair_poly(t, x, t.len(), r);
        assert forall|k: int| 0 <= k < t.len() implies md(#[trigger] column(ft, x)(k)) == md(line_at(t, x, r)(k)) by {
            assert(ft[k] == fold_prefix(t[k], r, half));
            let a = t[k][2 * x];
            let b = t[k][2 * x + 1];
            assert(column(ft, x)(k) == md(a + r * (b - a)));
            lemma_md_idem(a + r * (b - a));
        }
        assert(ft.len() == t.len());
        lemma_prod_congruent(t.len(), column(ft, x), line_at(t, x, r));
    }
    lemma_sum_congruent(half, point_prods(ft), pair_values(t, r));
}

// ================================================================================
// The round: message, reconstruction and interpolation.
// ================================================================================

/// For a round polynomial of degree at most 1 with s(0) + s(1) = sum and c = sum
/// reduced, (c - s(inf)) / 2 is s(0), modulo p.
proof fn lemma_half_step(g: Seq<int>, c: int, lead: int, sum: int)
    requires
        g.len() <= 2,
        sum == peval(g, 0) + peval(g, 1),
        c == md(sum),
        lead == md(coef(g, 1)),
    ensures
        md((c - lead) * crate::field_math::half_inv()) == md(peval(g, 0)),
{
    let h = crate::field_math::half_inv() as int;
    let p = modulus() as int;
    crate::field_math::lemma_half_val();
    lemma_peval_linear(g, 0);
    lemma_peval_linear(g, 1);
    let g0 = peval(g, 0);
    // c - lead = 2 s(0) modulo p.
    lemma_md_sub(sum, coef(g, 1));
    lemma_md_idem(sum);
    lemma_md_idem(coef(g, 1));
    assert(sum - coef(g, 1) == 2 * g0);
    assert(md(c - lead) == md(2 * g0));
    lemma_md_mul(c - lead, h);
    lemma_md_mul(2 * g0, h);
    assert((2 * g0) * h == g0 * (2 * h)) by (nonlinear_arith);
    assert(g0 * (2 * h) == g0 * p + g0) by (nonlinear_arith)
        requires
            2 * h == p + 1,
    ;
    vstd::arithmetic::div_mod::lemma_mod_multiples_vanish(g0, g0, p);
    assert(md(g0 * p + g0) == md(g0)) by {
        assert(g0 * p + g0 == p * g0 + g0) by (nonlinear_arith);
    }
}

/// A polynomial with at most two coefficients: s(y) = c_0 + y c_1.
proof fn lemma_peval_linear(g: Seq<int>, y: int)
    requires
        g.len() <= 2,
    ensures
        peval(g, y) == coef(g, 0) + y * coef(g, 1),
{
    if g.len() == 2 {
        let t1 = g.drop_first();
        assert(t1.drop_first().len() == 0);
        assert(peval(t1.drop_first(), y) == 0);
        assert(t1[0] == g[1]);
        assert(y * 0 == 0) by (nonlinear_arith);
        assert(peval(t1, y) == g[1] + y * peval(t1.drop_first(), y));
        assert(peval(t1, y) == g[1]);
        assert(peval(g, y) == g[0] + y * peval(t1, y));
    } else if g.len() == 1 {
        assert(g.drop_first().len() == 0);
        assert(peval(g.drop_first(), y) == 0);
        assert(y * 0 == 0) by (nonlinear_arith);
        assert(peval(g, y) == g[0] + y * peval(g.drop_first(), y));
    }
}

/// With an honest message and the true claim, the verifier's interpolation is the
/// claimed sum over the folded tables.
pub proof fn lemma_honest_round(t: Seq<Seq<int>>, c: int, r: int, half: nat)
    requires
        fermat_holds(),
        1 <= t.len() <= usize::MAX,
        forall|k: int| 0 <= k < t.len() ==> (#[trigger] t[k]).len() == 2 * half,
        c == md(table_sum(t, 2 * half)),
    ensures
        ({
            let msg = round_message(t, half);
            interpolate(msg, reconstruct_s0(msg, c, t.len()), r, t.len()) == md(table_sum(fold_tables(t, r, half), half))
        }),
{
    let d = t.len();
    crate::bigint_field::lemma_modulus_val();
    assert(usize::MAX <= u64::MAX);
    assert(d < modulus());
    let g = round_poly(t, half);
    let msg = round_message(t, half);
    let s0 = reconstruct_s0(msg, c, d);
    lemma_round_poly(t, half, r);
    // The message: s(inf), then s(1), ..., s(d-1), each reduced.
    assert forall|i: int| 1 <= i < d implies #[trigger] msg[i] == md(peval(g, i)) by {
        assert(u_hat_domain(d)[i] == EvaluationPoint::Value(i as u64));
        lemma_round_sum_is_poly(t, half, i as u64);
    }
    assert(msg[0] == md(coef(g, d as int))) by {
        assert(u_hat_domain(d)[0] == EvaluationPoint::Infinity);
        lemma_round_sum_is_poly(t, half, 0);
    }
    // s(0) = c - s(1) = s(0) + s(1) - s(1).
    assert(s0 == md(peval(g, 0))) by {
        lemma_table_sum_split(t, half);
        if d >= 2 {
            lemma_md_sub(c, msg[1]);
            lemma_md_sub(table_sum(t, 2 * half), peval(g, 1));
            lemma_md_idem(table_sum(t, 2 * half));
            lemma_md_idem(peval(g, 1));
        } else {
            lemma_half_step(g, c, msg[0], table_sum(t, 2 * half));
        }
    }
    // Node values agree with the round polynomial modulo p.
    let nodes = |i: int| node_value(msg, s0, i) * lagrange_coeff(r, i, d);
    let exact = |i: int| peval(g, i) * lagrange_coeff(r, i, d);
    assert forall|i: int| 0 <= i < d implies md(#[trigger] nodes(i)) == md(exact(i)) by {
        lemma_md_mul(node_value(msg, s0, i), lagrange_coeff(r, i, d));
        lemma_md_mul(peval(g, i), lagrange_coeff(r, i, d));
        lemma_md_idem(peval(g, i));
    }
    lemma_sum_congruent(d, nodes, exact);
    assert(lagrange_partial(msg, s0, r, d, d) == seq_sum(Seq::new(d, nodes))) by {
        assert(Seq::new(d, nodes) =~= Seq::new(d, |i: int| node_value(msg, s0, i) * lagrange_coeff(r, i, d)));
    }
    let vp = vanishing_prod(r, d);
    lemma_md_mul(msg[0], vp);
    lemma_md_mul(coef(g, d as int), vp);
    lemma_md_idem(coef(g, d as int));
    lemma_md_add(msg[0] * vp, lagrange_partial(msg, s0, r, d, d));
    lemma_md_add(coef(g, d as int) * vp, seq_sum(Seq::new(d, exact)));
    lemma_lagrange_infinity(g, d, r);
    assert(Seq::new(d, exact) =~= Seq::new(d, |i: int| peval(g, i) * lagrange_coeff(r, i, d)));
    lemma_table_sum_folded(t, r, half);
}

/// Completeness. With an honest prover, a claim equal to the true sum over the
/// hypercube of the product of d >= 1 tables leads the verifier, whatever the
/// challenges, to a final claim equal to the product of the multilinear extensions at
/// the challenges: the final oracle check accepts.
pub proof fn lemma_honest_claim_accepted(tv: Seq<Seq<int>>, rs: Seq<int>)
    requires
        fermat_holds(),
        1 <= tv.len() <= usize::MAX,
        forall|k: int| 0 <= k < tv.len() ==> (#[trigger] tv[k]).len() == pow2(rs.len()),
    ensures
        claim_after(tv, md(table_sum(tv, pow2(rs.len()))), rs) == oracle_value(tv, rs),
    decreases rs.len(),
{
    crate::bigint_field::lemma_modulus_val();
    assert(usize::MAX < modulus());
    let d = tv.len();
    let n = rs.len();
    if n == 0 {
        assert(pow2(0) == 1) by {
            vstd::arithmetic::power2::lemma2_to64();
        }
        lemma_seq_sum_new_step(0, point_prods(tv));
        assert(Seq::new(0, point_prods(tv)) =~= Seq::<int>::empty());
        assert(Seq::new(d, column(tv, 0)) =~= Seq::new(d, |k: int| mle_eval(tv[k], rs)));
    } else {
        let half = pow2((n - 1) as nat);
        lemma_pow2_unfold(n);
        assert(pow2(n) == 2 * half);
        let c = md(table_sum(tv, pow2(n)));
        let msg = round_message(tv, half);
        let r = rs[0];
        let ft = fold_tables(tv, r, half);
        lemma_honest_round(tv, c, r, half);
        assert(claim_after(tv, c, rs) == claim_after(ft, md(table_sum(ft, half)), rs.drop_first()));
        assert forall|k: int| 0 <= k < ft.len() implies (#[trigger] ft[k]).len() == pow2(rs.drop_first().len()) by {
            assert(ft[k] == fold_prefix(tv[k], r, half));
        }
        lemma_honest_claim_accepted(ft, rs.drop_first());
        assert forall|k: int| 0 <= k < d implies #[trigger] mle_eval(ft[k], rs.drop_first()) == mle_eval(tv[k], rs) by {
            assert(ft[k] == fold_prefix(tv[k], r, half));
            assert(fold_once(tv[k], r) == fold_prefix(tv[k], r, half));
            assert(fold_all(tv[k], rs) == fold_all(fold_once(tv[k], rs[0]), rs.drop_first()));
        }
        assert(Seq::new(d, |k: int| mle_eval(ft[k], rs.drop_first())) =~= Seq::new(d, |k: int| mle_eval(tv[k], rs)));
    }
}

/// Under Fermat's little theorem the arkworks verifier's interpolation (with the
/// inverses of the denominators) is the interpolation with a^(p-2) as inverse.
pub proof fn lemma_interpolate_inv(msg: Seq<int>, s0: int, r: int, d: nat)
    requires
        fermat_holds(),
        1 <= d <= usize::MAX,
    ensures
        interpolate_inv(msg, s0, r, d) == interpolate(msg, s0, r, d),
{
    crate::bigint_field::lemma_modulus_val();
    assert(d < modulus());
    assert forall|i: int| 0 <= i < d implies #[trigger] lagrange_coeff_inv(r, i, d) == lagrange_coeff(r, i, d) by {
        lemma_basis_den_nonzero(i, d);
        crate::field_math::lemma_md_range(basis_den(i, d));
        lemma_field_inv_fermat(md(basis_den(i, d)) as nat);
    }
    assert(Seq::new(d, |i: int| node_value(msg, s0, i) * lagrange_coeff_inv(r, i, d)) =~= Seq::new(
        d,
        |i: int| node_value(msg, s0, i) * lagrange_coeff(r, i, d),
    ));
    assert(lagrange_partial_inv(msg, s0, r, d, d) == lagrange_partial(msg, s0, r, d, d));
}

/// Under Fermat's little theorem the arkworks verifier's claims are those of the
/// standard-form verifier, for d >= 2.
pub proof fn lemma_claim_after_inv(tv: Seq<Seq<int>>, c: int, rs: Seq<int>)
    requires
        fermat_holds(),
        2 <= tv.len() <= usize::MAX,
    ensures
        claim_after_inv(tv, c, rs) == claim_after(tv, c, rs),
    decreases rs.len(),
{
    if rs.len() > 0 {
        let half = pow2((rs.len() - 1) as nat);
        let msg = round_message(tv, half);
        let s0 = md(c - msg[1]);
        lemma_interpolate_inv(msg, s0, rs[0], tv.len());
        let ft = fold_tables(tv, rs[0], half);
        assert(ft.len() == tv.len());
        lemma_claim_after_inv(ft, interpolate(msg, s0, rs[0], tv.len()), rs.drop_first());
    }
}

} // verus!
