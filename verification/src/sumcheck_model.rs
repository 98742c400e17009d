//! The integer model of the linear-time sum-check: the tables as integer sequences,
//! the round messages on U_d_hat, folding with a challenge, the verifier's
//! interpolation, and the claim after a sequence of honest rounds.
use crate::bigint_field::{fe_add, fe_mul, fe_sub, modulus, StdFr2};
use crate::engine::{u_hat_domain, EvaluationPoint};
use crate::field_math::{
    lemma_fe_add_md,
    lemma_fe_sub_md,
    lemma_md_canonical,
    md,
    seq_prod,
    seq_sum,
};
use crate::poly::{lagrange_coeff, lagrange_coeff_inv, vanishing_prod};
use vstd::prelude::*;

verus! {

// ================================================================================
// The integer model of a round.
// ================================================================================

/// The values of a table as integers.
pub open spec fn table_values(row: Seq<StdFr2>) -> Seq<int> {
    row.map_values(|e: StdFr2| e.value() as int)
}

/// The values of all tables as integers.
pub open spec fn tables_values(t: Seq<Seq<StdFr2>>) -> Seq<Seq<int>> {
    t.map_values(|row: Seq<StdFr2>| table_values(row))
}

/// The tables held in vectors, as integer sequences.
pub open spec fn polys_values(list_of_poly: Seq<Vec<StdFr2>>) -> Seq<Seq<int>> {
    tables_values(list_of_poly.map_values(|v: Vec<StdFr2>| v@))
}

/// Every entry of every table is a canonical field element.
pub open spec fn tables_canonical(t: Seq<Seq<StdFr2>>) -> bool {
    forall|k: int, i: int| 0 <= k < t.len() && 0 <= i < t[k].len() ==> (#[trigger] t[k][i]).is_canonical()
}

/// Every table holds at least `n` entries.
pub open spec fn tables_min_len(t: Seq<Seq<StdFr2>>, n: nat) -> bool {
    forall|k: int| 0 <= k < t.len() ==> (#[trigger] t[k]).len() >= n
}

/// The restriction of a multilinear polynomial to the line through its values p0 (at 0)
/// and p1 (at 1), evaluated at a point of the domain; at infinity it is the slope.
pub open spec fn point_term(p0: int, p1: int, pt: EvaluationPoint) -> int {
    match pt {
        EvaluationPoint::Infinity => p1 - p0,
        EvaluationPoint::Value(v) => p0 + v * (p1 - p0),
    }
}

/// Table `k` on the pair (2x, 2x+1), evaluated at `pt` in the current variable.
pub open spec fn pair_term(t: Seq<Seq<int>>, k: int, x: int, pt: EvaluationPoint) -> int {
    point_term(t[k][2 * x], t[k][2 * x + 1], pt)
}

/// The product of the first `n` tables at (pt, x).
pub open spec fn product_prefix(t: Seq<Seq<int>>, x: int, pt: EvaluationPoint, n: nat) -> int {
    seq_prod(Seq::new(n, |k: int| pair_term(t, k, x, pt)))
}

/// s(pt) summed over the first `half` points x of the remaining hypercube:
/// sum_x prod_k p_k(pt, x), as an integer.
pub open spec fn round_sum(t: Seq<Seq<int>>, half: nat, pt: EvaluationPoint) -> int {
    seq_sum(Seq::new(half, |x: int| product_prefix(t, x, pt, t.len())))
}

/// The round polynomial message: s evaluated on U_d_hat, reduced modulo p.
pub open spec fn round_message(t: Seq<Seq<int>>, half: nat) -> Seq<int> {
    Seq::new(t.len(), |i: int| md(round_sum(t, half, u_hat_domain(t.len())[i])))
}

/// The first `half` entries of a table folded with r: entry x becomes p0 + r (p1 - p0),
/// reduced, where p0 and p1 are entries 2x and 2x + 1.
pub open spec fn fold_prefix(s: Seq<int>, r: int, half: nat) -> Seq<int> {
    Seq::new(half, |x: int| md(s[2 * x] + r * (s[2 * x + 1] - s[2 * x])))
}

/// A whole table folded with r (the current variable fixed to r).
pub open spec fn fold_once(s: Seq<int>, r: int) -> Seq<int> {
    fold_prefix(s, r, s.len() / 2)
}

/// A table folded with each challenge in turn.
pub open spec fn fold_all(s: Seq<int>, rs: Seq<int>) -> Seq<int>
    decreases rs.len(),
{
    if rs.len() == 0 {
        s
    } else {
        fold_all(fold_once(s, rs[0]), rs.drop_first())
    }
}

/// The multilinear extension of a table evaluated at rs: the table folded with every
/// coordinate of rs, first coordinate first.
pub open spec fn mle_eval(s: Seq<int>, rs: Seq<int>) -> int {
    fold_all(s, rs)[0]
}


/// Folding with one more challenge at the end.
pub proof fn lemma_fold_all_push(s: Seq<int>, rs: Seq<int>, r: int)
    ensures
        fold_all(s, rs.push(r)) == fold_once(fold_all(s, rs), r),
    decreases rs.len(),
{
    if rs.len() == 0 {
        assert(rs.push(r).drop_first() =~= Seq::<int>::empty());
        assert(fold_all(fold_once(s, r), Seq::<int>::empty()) == fold_once(s, r));
        assert(rs.push(r)[0] == r);
    } else {
        assert(rs.push(r).drop_first() =~= rs.drop_first().push(r));
        assert(rs.push(r)[0] == rs[0]);
        lemma_fold_all_push(fold_once(s, rs[0]), rs.drop_first(), r);
    }
}

/// Folding keeps halving the length.
pub proof fn lemma_fold_all_len(s: Seq<int>, rs: Seq<int>)
    requires
        s.len() >= vstd::arithmetic::power2::pow2(rs.len()),
    ensures
        fold_all(s, rs).len() >= 1,
    decreases rs.len(),
{
    vstd::arithmetic::power2::lemma_pow2_pos(rs.len());
    if rs.len() > 0 {
        vstd::arithmetic::power2::lemma_pow2_unfold(rs.len());
        lemma_fold_all_len(fold_once(s, rs[0]), rs.drop_first());
    }
}

/// The values of a sequence of field elements as integers.
pub open spec fn elems_values(s: Seq<StdFr2>) -> Seq<int> {
    s.map_values(|e: StdFr2| e.value() as int)
}

// ================================================================================
// The verifier's interpolation (Lemma 2: Lagrange with the point at infinity).
// ================================================================================

/// The value of the round polynomial at the finite node i of {0, ..., d-1}: s(0) is
/// reconstructed, s(1..d-1) come from the message (whose entry 0 is s(inf)).
pub open spec fn node_value(msg: Seq<int>, s0: int, i: int) -> int {
    if i == 0 {
        s0
    } else {
        msg[i]
    }
}

/// sum_{i < n} s(x_i) L_i(r).
pub open spec fn lagrange_partial(msg: Seq<int>, s0: int, r: int, d: nat, n: nat) -> int {
    seq_sum(Seq::new(n, |i: int| node_value(msg, s0, i) * lagrange_coeff(r, i, d)))
}


/// The next claim: s(r) = s(inf) prod_k (r - x_k) + sum_i s(x_i) L_i(r), reduced.
pub open spec fn interpolate(msg: Seq<int>, s0: int, r: int, d: nat) -> int {
    md(msg[0] * vanishing_prod(r, d) + lagrange_partial(msg, s0, r, d, d))
}


/// Every table folded with r on its first `half` pairs.
pub open spec fn fold_tables(tv: Seq<Seq<int>>, r: int, half: nat) -> Seq<Seq<int>> {
    tv.map_values(|row: Seq<int>| fold_prefix(row, r, half))
}

/// The value at 0 of the round polynomial s, from the claim c = s(0) + s(1) and the
/// message on U_d_hat: c - s(1) for d >= 2; for d = 1 the message holds s(inf) alone,
/// s(1) = s(0) + s(inf), and s(0) = (c - s(inf)) / 2.
pub open spec fn reconstruct_s0(msg: Seq<int>, c: int, d: nat) -> int {
    if d >= 2 {
        md(c - msg[1])
    } else {
        md((c - msg[0]) * crate::field_math::half_inv())
    }
}

/// The verifier's running claim after the rounds driven by the challenges `rs`, starting
/// from the claim `c` on the tables `tv` (of length 2^|rs|) with an honest prover: each
/// round the prover sends s on U_d_hat, the verifier reconstructs s(0) from c (`reconstruct_s0`) and
/// interpolates s at the challenge, and the tables are folded with it.
pub open spec fn claim_after(tv: Seq<Seq<int>>, c: int, rs: Seq<int>) -> int
    decreases rs.len(),
{
    if rs.len() == 0 {
        c
    } else {
        let half = vstd::arithmetic::power2::pow2((rs.len() - 1) as nat);
        let msg = round_message(tv, half);
        let s0 = reconstruct_s0(msg, c, tv.len());
        claim_after(fold_tables(tv, rs[0], half), interpolate(msg, s0, rs[0], tv.len()), rs.drop_first())
    }
}

/// md(prod_k MLE_k(rs)): what the final oracle check compares the last claim with.
pub open spec fn oracle_value(tv: Seq<Seq<int>>, rs: Seq<int>) -> int {
    md(seq_prod(Seq::new(tv.len(), |k: int| mle_eval(tv[k], rs))))
}

/// Facts about doubling an index with shifts.
pub proof fn lemma_pair_index(x: usize)
    requires
        2 * x + 1 <= usize::MAX,
    ensures
        x << 1usize == 2 * x,
        (x << 1usize) | 1usize == 2 * x + 1,
{
    vstd::arithmetic::power2::lemma2_to64();
    vstd::bits::lemma_usize_shl_is_mul(x, 1);
    let y = x << 1usize;
    assert(y % 2 == 0);
    assert(y % 2 == 0 ==> (y | 1usize) == y + 1) by (bit_vector);
}

/// The field evaluation of one line at a small point or at infinity.
pub proof fn lemma_term_value(p0: nat, p1: nat, delta: nat, v: nat, scaled: nat, term: nat)
    requires
        p0 < modulus(),
        p1 < modulus(),
        delta == fe_sub(p1, p0),
        scaled == fe_mul(delta, v),
        term == fe_add(scaled, p0),
    ensures
        term == md(p0 + v * (p1 - p0)),
        delta == md(p1 - p0),
{
    lemma_fe_sub_md(p1, p0);
    crate::field_math::lemma_md_mul(p1 - p0, v as int);
    assert(scaled == md((p1 - p0) * v));
    lemma_md_canonical(p0);
    lemma_fe_add_md(scaled, p0, (p1 - p0) * v, p0 as int);
    vstd::arithmetic::mul::lemma_mul_is_commutative(p1 - p0, v as int);
}


/// sum_{i < n} s(x_i) L_i(r), with the inverses of the denominators.
pub open spec fn lagrange_partial_inv(msg: Seq<int>, s0: int, r: int, d: nat, n: nat) -> int {
    seq_sum(Seq::new(n, |i: int| node_value(msg, s0, i) * lagrange_coeff_inv(r, i, d)))
}

/// The next claim as the arkworks verifier computes it: the same interpolation, with
/// the inverses of the denominators.
pub open spec fn interpolate_inv(msg: Seq<int>, s0: int, r: int, d: nat) -> int {
    md(msg[0] * vanishing_prod(r, d) + lagrange_partial_inv(msg, s0, r, d, d))
}

/// The running claim after honest rounds, for the arkworks verifier.
pub open spec fn claim_after_inv(tv: Seq<Seq<int>>, c: int, rs: Seq<int>) -> int
    decreases rs.len(),
{
    if rs.len() == 0 {
        c
    } else {
        let half = vstd::arithmetic::power2::pow2((rs.len() - 1) as nat);
        let msg = round_message(tv, half);
        let s0 = md(c - msg[1]);
        claim_after_inv(fold_tables(tv, rs[0], half), interpolate_inv(msg, s0, rs[0], tv.len()), rs.drop_first())
    }
}


/// A point of the field's affine space: every coordinate a canonical residue.
pub open spec fn field_point(rs: Seq<int>) -> bool {
    forall|i: int| 0 <= i < rs.len() ==> 0 <= #[trigger] rs[i] < modulus()
}

/// The values of canonical field elements form a point of the field's space.
pub proof fn lemma_field_point_of(s: Seq<StdFr2>)
    requires
        forall|i: int| 0 <= i < s.len() ==> (#[trigger] s[i]).is_canonical(),
    ensures
        field_point(elems_values(s)),
        elems_values(s).len() == s.len(),
{
    assert forall|i: int| 0 <= i < elems_values(s).len() implies 0 <= #[trigger] elems_values(s)[i] < modulus() by {
        assert(s[i].is_canonical());
    }
}

/// The verdict of the verifier that reconstructs s(0) and interpolates each round with
/// challenges rs, honest rounds starting from the claim c: the final claim is the
/// oracle's value.
pub open spec fn verdict(tv: Seq<Seq<int>>, c: int, rs: Seq<int>) -> bool {
    oracle_value(tv, rs) == claim_after(tv, c, rs)
}

/// The same verdict for the verifier that interpolates with inverted denominators.
pub open spec fn verdict_inv(tv: Seq<Seq<int>>, c: int, rs: Seq<int>) -> bool {
    oracle_value(tv, rs) == claim_after_inv(tv, c, rs)
}

/// A table held in a vector has at most usize::MAX entries.
pub proof fn lemma_vec_len_fits(v: Vec<StdFr2>)
    ensures
        v@.len() <= usize::MAX,
{
    assert(v@.len() == v.len());
}

/// A power of two that fits in a `usize` has an exponent below its bit width.
pub proof fn lemma_pow2_fits(n: nat)
    requires
        vstd::arithmetic::power2::pow2(n) <= usize::MAX,
    ensures
        n < usize::BITS,
{
    if n >= usize::BITS {
        vstd::arithmetic::power2::lemma2_to64();
        if n > usize::BITS {
            vstd::arithmetic::power2::lemma_pow2_strictly_increases(usize::BITS as nat, n);
        }
    }
}

} // verus!
