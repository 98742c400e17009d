//! Soundness of the linear-time sum-check: with an honest prover and a false claim,
//! a round's interpolated claim is the true sum over the folded tables only for a
//! challenge among the nodes 1, ..., d-1; so for every challenge vector that avoids
//! those nodes, a false claim is rejected. Drawn uniformly from the field, the l
//! challenges hit a node with probability at most l (d - 1) / p.
use crate::bigint_field::{fe_inv, fe_mul, modulus};
use crate::completeness::{lemma_honest_claim_accepted, lemma_honest_round, lemma_interpolate_inv, table_sum};
use crate::field_math::{lemma_md_range, md, seq_sum};
use crate::poly::{
    basis_den,
    basis_num,
    fermat_holds,
    lagrange_coeff,
    lemma_basis_den_nonzero,
    lemma_distinct_diff,
    lemma_md_sub,
    lemma_nonzero_product,
    lemma_prod_nonzero,
    lemma_sum_single,
    num_factors,
};
use crate::sumcheck_model::{
    claim_after_inv,
    fold_all,
    fold_once,
    fold_prefix,
    fold_tables,
    interpolate,
    interpolate_inv,
    lagrange_partial,
    mle_eval,
    node_value,
    oracle_value,
    reconstruct_s0,
    round_message,
    field_point,
    verdict,
    verdict_inv,
};
use vstd::arithmetic::power2::{lemma_pow2_unfold, pow2};
use vstd::prelude::*;

verus! {

/// No entry of rs is one of the nodes 1, ..., d-1 of the round polynomials.
pub open spec fn avoids_nodes(rs: Seq<int>, d: nat) -> bool {
    forall|i: int| 0 <= i < rs.len() ==> !(1 <= #[trigger] rs[i] < d)
}

/// Two interpolations that differ only in the value at node 0 differ by that
/// difference times the Lagrange coefficient of node 0.
proof fn lemma_node_zero_difference(msg: Seq<int>, a: int, b: int, r: int, d: nat)
    requires
        d >= 1,
    ensures
        lagrange_partial(msg, a, r, d, d) - lagrange_partial(msg, b, r, d, d) == (a - b) * lagrange_coeff(r, 0, d),
{
    let fa = |i: int| node_value(msg, a, i) * lagrange_coeff(r, i, d);
    let fb = |i: int| node_value(msg, b, i) * lagrange_coeff(r, i, d);
    let h = |i: int| fa(i) - fb(i);
    assert forall|j: int| 0 <= j < d && j != 0 implies #[trigger] h(j) == 0 by {}
    lemma_sum_single(d, h, 0);
    crate::window_values::lemma_sum_add(d, fb, h);
    assert(Seq::new(d, |x: int| fb(x) + h(x)) =~= Seq::new(d, fa));
    let l0 = lagrange_coeff(r, 0, d);
    assert(a * l0 - b * l0 == (a - b) * l0) by (nonlinear_arith);
    assert(lagrange_partial(msg, a, r, d, d) == seq_sum(Seq::new(d, fa)));
    assert(lagrange_partial(msg, b, r, d, d) == seq_sum(Seq::new(d, fb)));
}

/// Away from the nodes 1, ..., d-1 the Lagrange coefficient of node 0 is nonzero.
proof fn lemma_node_zero_coeff_nonzero(r: int, d: nat)
    requires
        fermat_holds(),
        2 <= d <= usize::MAX,
        0 <= r < modulus(),
        !(1 <= r < d),
    ensures
        md(lagrange_coeff(r, 0, d)) != 0,
{
    crate::bigint_field::lemma_modulus_val();
    assert(d < modulus());
    // The numerator: prod_{1 <= j < d} (r - j), no factor vanishing.
    assert forall|j: int| 0 <= j < d implies md(#[trigger] num_factors(r, 0)(j)) != 0 by {
        if j == 0 {
            vstd::arithmetic::div_mod::lemma_small_mod(1, modulus());
        } else {
            lemma_distinct_diff(r, j);
        }
    }
    lemma_prod_nonzero(d, num_factors(r, 0));
    assert(basis_num(r, 0, d) == crate::field_math::seq_prod(Seq::new(d, num_factors(r, 0))));
    // The inverse of the denominator.
    lemma_basis_den_nonzero(0, d);
    let den = md(basis_den(0, d));
    lemma_md_range(basis_den(0, d));
    let inv = fe_inv(den as nat);
    assert(fe_mul(den as nat, inv) == 1);
    assert(inv < modulus());
    vstd::arithmetic::div_mod::lemma_small_mod(inv, modulus());
    if md(inv as int) == 0 {
        assert(inv == 0);
        vstd::arithmetic::mul::lemma_mul_basics(den);
        vstd::arithmetic::div_mod::lemma_small_mod(0, modulus());
        assert(fe_mul(den as nat, 0) == 0);
    }
    lemma_nonzero_product(basis_num(r, 0, d), inv as int);
}

/// Soundness of a round: with an honest message and a false claim c, the verifier's
/// next claim is the true sum over the tables folded with the challenge r only when r
/// is one of the nodes 1, ..., d-1.
pub proof fn lemma_round_sound(t: Seq<Seq<int>>, c: int, r: int, half: nat)
    requires
        fermat_holds(),
        2 <= t.len() <= usize::MAX,
        forall|k: int| 0 <= k < t.len() ==> (#[trigger] t[k]).len() == 2 * half,
        0 <= c < modulus(),
        c != md(table_sum(t, 2 * half)),
        0 <= r < modulus(),
        !(1 <= r < t.len()),
    ensures
        ({
            let msg = round_message(t, half);
            interpolate_inv(msg, md(c - msg[1]), r, t.len()) != md(table_sum(fold_tables(t, r, half), half))
        }),
{
    let d = t.len();
    let msg = round_message(t, half);
    let ct = md(table_sum(t, 2 * half));
    let s0 = md(c - msg[1]);
    let st = md(ct - msg[1]);
    lemma_honest_round(t, ct, r, half);
    assert(reconstruct_s0(msg, ct, d) == st);
    lemma_interpolate_inv(msg, s0, r, d);
    // The reconstructed values at 0 differ.
    lemma_md_range(c - msg[1]);
    lemma_md_range(ct - msg[1]);
    lemma_md_range(table_sum(t, 2 * half));
    if s0 == st {
        lemma_md_sub(c - msg[1], ct - msg[1]);
        assert((c - msg[1]) - (ct - msg[1]) == c - ct);
        lemma_distinct_diff(c, ct);
    }
    lemma_distinct_diff(s0, st);
    // So do the interpolations.
    lemma_node_zero_coeff_nonzero(r, d);
    lemma_nonzero_product(s0 - st, lagrange_coeff(r, 0, d));
    lemma_node_zero_difference(msg, s0, st, r, d);
    let x = msg[0] * crate::poly::vanishing_prod(r, d);
    let pa = lagrange_partial(msg, s0, r, d, d);
    let pb = lagrange_partial(msg, st, r, d, d);
    if interpolate(msg, s0, r, d) == interpolate(msg, st, r, d) {
        lemma_md_sub(x + pa, x + pb);
        assert((x + pa) - (x + pb) == pa - pb);
        vstd::arithmetic::div_mod::lemma_small_mod(0, modulus());
    }
}

/// Soundness of the linear-time sum-check: with an honest prover, a false claim on at
/// least two tables of 2^l entries is rejected by the final oracle check for every
/// vector of l challenges none of which is a node 1, ..., d-1.
pub proof fn lemma_false_claim_rejected(tv: Seq<Seq<int>>, c: int, rs: Seq<int>)
    requires
        fermat_holds(),
        2 <= tv.len() <= usize::MAX,
        forall|k: int| 0 <= k < tv.len() ==> (#[trigger] tv[k]).len() == pow2(rs.len()),
        0 <= c < modulus(),
        c != md(table_sum(tv, pow2(rs.len()))),
        field_point(rs),
        avoids_nodes(rs, tv.len()),
    ensures
        !verdict_inv(tv, c, rs),
    decreases rs.len(),
{
    let d = tv.len();
    let n = rs.len();
    if n == 0 {
        lemma_honest_claim_accepted(tv, rs);
    } else {
        let half = pow2((n - 1) as nat);
        lemma_pow2_unfold(n);
        let msg = round_message(tv, half);
        let r = rs[0];
        let rest = rs.drop_first();
        let ft = fold_tables(tv, r, half);
        let c1 = interpolate_inv(msg, md(c - msg[1]), r, d);
        lemma_round_sound(tv, c, r, half);
        lemma_md_range(msg[0] * crate::poly::vanishing_prod(r, d) + crate::sumcheck_model::lagrange_partial_inv(
            msg,
            md(c - msg[1]),
            r,
            d,
            d,
        ));
        assert(claim_after_inv(tv, c, rs) == claim_after_inv(ft, c1, rest));
        assert forall|k: int| 0 <= k < ft.len() implies (#[trigger] ft[k]).len() == pow2(rest.len()) by {
            assert(ft[k] == fold_prefix(tv[k], r, half));
        }
        assert forall|i: int| 0 <= i < rest.len() implies 0 <= #[trigger] rest[i] < modulus() && !(1 <= rest[i] < ft.len()) by {
            assert(rest[i] == rs[i + 1]);
        }
        assert(rs[0] == r && 0 <= rs[0] < modulus() && !(1 <= rs[0] < d));
        lemma_false_claim_rejected(ft, c1, rest);
        assert forall|k: int| 0 <= k < d implies #[trigger] mle_eval(ft[k], rest) == mle_eval(tv[k], rs) by {
            assert(ft[k] == fold_prefix(tv[k], r, half));
            assert(fold_once(tv[k], r) == fold_prefix(tv[k], r, half));
            assert(fold_all(tv[k], rs) == fold_all(fold_once(tv[k], rs[0]), rs.drop_first()));
        }
        assert(Seq::new(d, |k: int| mle_eval(ft[k], rest)) =~= Seq::new(d, |k: int| mle_eval(tv[k], rs)));
    }
}

/// The verdict on tables of 2^|rs| canonical entries: a false claim is rejected when no
/// challenge is a node (the form in which the protocols' contracts use it).
pub(crate) proof fn lemma_sound_verdict(tv: Seq<Seq<int>>, c: int, rs: Seq<int>)
    requires
        2 <= tv.len() <= usize::MAX,
        forall|k: int| 0 <= k < tv.len() ==> (#[trigger] tv[k]).len() == pow2(rs.len()),
        0 <= c < modulus(),
        field_point(rs),
    ensures
        fermat_holds() && c != md(table_sum(tv, pow2(rs.len()))) && avoids_nodes(rs, tv.len()) ==> !verdict_inv(tv, c, rs),
{
    if fermat_holds() && c != md(table_sum(tv, pow2(rs.len()))) && avoids_nodes(rs, tv.len()) {
        lemma_false_claim_rejected(tv, c, rs);
    }
}

/// Soundness of a round for every d, with the verifier that reconstructs s(0) by
/// `reconstruct_s0`: a false claim c gives, for a challenge r that is not one of the
/// nodes 1, ..., d-1, a next claim other than the true sum over the folded tables (for
/// d = 1 there is no such node).
pub proof fn lemma_round_sound_any_degree(t: Seq<Seq<int>>, c: int, r: int, half: nat)
    requires
        fermat_holds(),
        1 <= t.len() <= usize::MAX,
        forall|k: int| 0 <= k < t.len() ==> (#[trigger] t[k]).len() == 2 * half,
        0 <= c < modulus(),
        c != md(table_sum(t, 2 * half)),
        0 <= r < modulus(),
        !(1 <= r < t.len()),
    ensures
        ({
            let msg = round_message(t, half);
            interpolate(msg, reconstruct_s0(msg, c, t.len()), r, t.len()) != md(table_sum(fold_tables(t, r, half), half))
        }),
{
    let d = t.len();
    let msg = round_message(t, half);
    if d >= 2 {
        lemma_round_sound(t, c, r, half);
        lemma_interpolate_inv(msg, md(c - msg[1]), r, d);
    } else {
        let ct = md(table_sum(t, 2 * half));
        let h = crate::field_math::half_inv() as int;
        crate::field_math::lemma_half_val();
        let s0 = reconstruct_s0(msg, c, d);
        let st = reconstruct_s0(msg, ct, d);
        lemma_honest_round(t, ct, r, half);
        lemma_md_range(table_sum(t, 2 * half));
        vstd::arithmetic::div_mod::lemma_small_mod(h as nat, modulus());
        // The reconstructed values at 0 differ: (c - ct) / 2 is nonzero.
        lemma_distinct_diff(c, ct);
        lemma_nonzero_product(c - ct, h);
        lemma_md_range((c - msg[0]) * h);
        lemma_md_range((ct - msg[0]) * h);
        assert((c - msg[0]) * h - (ct - msg[0]) * h == (c - ct) * h) by (nonlinear_arith);
        if s0 == st {
            lemma_md_sub((c - msg[0]) * h, (ct - msg[0]) * h);
            vstd::arithmetic::div_mod::lemma_small_mod(0, modulus());
        }
        lemma_distinct_diff(s0, st);
        // With one node, its Lagrange coefficient is 1.
        assert(Seq::new(1, num_factors(r, 0)) =~= seq![1int]);
        assert(Seq::new(1, num_factors(0, 0)) =~= seq![1int]);
        crate::field_math::lemma_seq_prod_new_step(0, num_factors(r, 0));
        crate::field_math::lemma_seq_prod_new_step(0, num_factors(0, 0));
        assert(Seq::new(0, num_factors(r, 0)) =~= Seq::<int>::empty());
        assert(Seq::new(0, num_factors(0, 0)) =~= Seq::<int>::empty());
        assert(basis_num(r, 0, 1) == 1);
        assert(basis_den(0, 1) == 1);
        vstd::arithmetic::div_mod::lemma_small_mod(1, modulus());
        vstd::arithmetic::power::lemma1_pow((modulus() - 2) as nat);
        assert(fe_inv(1) == 1);
        assert(lagrange_coeff(r, 0, 1) == 1);
        lemma_node_zero_difference(msg, s0, st, r, d);
        let x = msg[0] * crate::poly::vanishing_prod(r, d);
        let pa = lagrange_partial(msg, s0, r, d, d);
        let pb = lagrange_partial(msg, st, r, d, d);
        assert(pa - pb == s0 - st);
        if interpolate(msg, s0, r, d) == interpolate(msg, st, r, d) {
            lemma_md_sub(x + pa, x + pb);
            assert((x + pa) - (x + pb) == pa - pb);
            vstd::arithmetic::div_mod::lemma_small_mod(0, modulus());
        }
    }
}

/// Soundness of the sum-check for every number d >= 1 of tables, with the verifier
/// that reconstructs s(0) by `reconstruct_s0`: a false claim is rejected by the final
/// oracle check for every vector of challenges none of which is a node 1, ..., d-1.
pub proof fn lemma_false_claim_rejected_any_degree(tv: Seq<Seq<int>>, c: int, rs: Seq<int>)
    requires
        fermat_holds(),
        1 <= tv.len() <= usize::MAX,
        forall|k: int| 0 <= k < tv.len() ==> (#[trigger] tv[k]).len() == pow2(rs.len()),
        0 <= c < modulus(),
        c != md(table_sum(tv, pow2(rs.len()))),
        field_point(rs),
        avoids_nodes(rs, tv.len()),
    ensures
        !verdict(tv, c, rs),
    decreases rs.len(),
{
    let d = tv.len();
    let n = rs.len();
    if n == 0 {
        lemma_honest_claim_accepted(tv, rs);
    } else {
        let half = pow2((n - 1) as nat);
        lemma_pow2_unfold(n);
        let msg = round_message(tv, half);
        let r = rs[0];
        let rest = rs.drop_first();
        let ft = fold_tables(tv, r, half);
        let c1 = interpolate(msg, reconstruct_s0(msg, c, d), r, d);
        assert(0 <= rs[0] < modulus() && !(1 <= rs[0] < d));
        lemma_round_sound_any_degree(tv, c, r, half);
        lemma_md_range(msg[0] * crate::poly::vanishing_prod(r, d) + lagrange_partial(msg, reconstruct_s0(msg, c, d), r, d, d));
        assert(crate::sumcheck_model::claim_after(tv, c, rs) == crate::sumcheck_model::claim_after(ft, c1, rest));
        assert forall|k: int| 0 <= k < ft.len() implies (#[trigger] ft[k]).len() == pow2(rest.len()) by {
            assert(ft[k] == fold_prefix(tv[k], r, half));
        }
        assert forall|i: int| 0 <= i < rest.len() implies 0 <= #[trigger] rest[i] < modulus() && !(1 <= rest[i] < ft.len()) by {
            assert(rest[i] == rs[i + 1]);
        }
        lemma_false_claim_rejected_any_degree(ft, c1, rest);
        assert forall|k: int| 0 <= k < d implies #[trigger] mle_eval(ft[k], rest) == mle_eval(tv[k], rs) by {
            assert(ft[k] == fold_prefix(tv[k], r, half));
            assert(fold_once(tv[k], r) == fold_prefix(tv[k], r, half));
            assert(fold_all(tv[k], rs) == fold_all(fold_once(tv[k], rs[0]), rs.drop_first()));
        }
        assert(Seq::new(d, |k: int| mle_eval(ft[k], rest)) =~= Seq::new(d, |k: int| mle_eval(tv[k], rs)));
    }
}

/// The challenges of a round that let a false claim through: with an honest message
/// and a false claim c, at most d - 1 of the p challenges make the verifier's next claim
/// the true sum over the folded tables, so a uniformly drawn challenge does so with
/// probability at most (d - 1) / p.
pub proof fn lemma_round_bad_challenges(t: Seq<Seq<int>>, c: int, half: nat)
    requires
        fermat_holds(),
        1 <= t.len() <= usize::MAX,
        forall|k: int| 0 <= k < t.len() ==> (#[trigger] t[k]).len() == 2 * half,
        0 <= c < modulus(),
        c != md(table_sum(t, 2 * half)),
    ensures
        ({
            let msg = round_message(t, half);
            let bad = Set::new(
                |r: int|
                    0 <= r < modulus() && interpolate(msg, reconstruct_s0(msg, c, t.len()), r, t.len()) == md(
                        table_sum(fold_tables(t, r, half), half),
                    ),
            );
            &&& bad.finite()
            &&& bad.len() <= t.len() - 1
        }),
{
    let d = t.len();
    let msg = round_message(t, half);
    let bad = Set::new(
        |r: int|
            0 <= r < modulus() && interpolate(msg, reconstruct_s0(msg, c, d), r, d) == md(table_sum(fold_tables(t, r, half), half)),
    );
    let nodes = vstd::set_lib::set_int_range(1, d as int);
    assert forall|r: int| bad.contains(r) implies nodes.contains(r) by {
        if !(1 <= r < d) {
            lemma_round_sound_any_degree(t, c, r, half);
        }
    }
    assert(bad.subset_of(nodes));
    vstd::set_lib::lemma_int_range(1, d as int);
    vstd::set_lib::lemma_len_subset(bad, nodes);
}

} // verus!
