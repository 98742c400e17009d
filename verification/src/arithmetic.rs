//! Small-value arithmetic for dot products: a small field element times a big one as
//! a plain integer product, accumulated without reduction in six limbs and reduced
//! once at the end (delayed reduction), with arkworks' `Fr` doing the field steps.
use crate::ark_field::{fr_add, fr_from_bigint, fr_mul, fr_new, fr_r_256};
use crate::bigint_field::{fe_add, fe_mul, lemma_write_carry, lemma_mac_fits, modulus, modulus_int, raw_mul_small, StdFr2};
use crate::field_math::{lemma_fe_add_md, lemma_fe_mul_md, lemma_md_add, lemma_md_canonical, lemma_md_mul, lemma_md_range, lemma_seq_sum_new_step, md, seq_sum};
use crate::limbs::{
    lemma_val_bound,
    lemma_val_prefixes,
    lemma_val_split,
    lemma_val_take_all,
    lemma_val_take_step,
    lemma_val_zero_tail,
    lemma_weight_small,
    limb_base,
    limbs_val,
    weight,
};
use vstd::arithmetic::div_mod::{lemma_fundamental_div_mod, lemma_small_mod};
use vstd::arithmetic::mul::{lemma_mul_basics, lemma_mul_inequality, lemma_mul_is_distributive_add};
use vstd::prelude::*;

verus! {

/// Below this many terms a dot product is computed term by term in the field.
pub const DELAYED_REDUCTION_THRESHOLD: usize = 14;

/// The value of the first four limbs and of the two overflow limbs.
proof fn lemma_six_limbs(t: Seq<u64>)
    requires
        t.len() == 6,
    ensures
        limbs_val(t) == limbs_val(t.take(4)) + (t[4] + t[5] * limb_base()) * weight(4),
        t[4] + t[5] * limb_base() == limbs_val(t.skip(4)),
        limbs_val(t.skip(4)) < weight(2),
{
    lemma_val_split(t, 4);
    let hi = t.skip(4);
    lemma_val_prefixes(hi);
    lemma_val_take_all(hi);
    lemma_weight_small();
    assert(hi.take(2) =~= hi);
    lemma_val_bound(hi);
}

/// Adds `small * coeff_limbs` into the six-limb accumulator as a plain integer, the
/// carry propagated into the overflow limbs (and dropped beyond them).
pub fn small_big_mac_raw(global_t: &mut [u64; 6], small: u64, coeff_limbs: &[u64; 4])
    ensures
        limbs_val(final(global_t)@) as int == (limbs_val(old(global_t)@) + small * limbs_val(coeff_limbs@)) % (weight(6) as int),
{
    let ghost t0 = global_t@;
    let small_u128 = small as u128;
    let mut carry: u128 = 0;
    proof {
        assert(limbs_val(coeff_limbs@.take(0)) == 0);
        lemma_mul_basics(small as int);
    }
    for j in 0..4
        invariant
            small_u128 == small,
            carry < 0x1_0000_0000_0000_0000,
            limbs_val(global_t@) + carry * weight(j as nat) == limbs_val(t0) + small * limbs_val(coeff_limbs@.take(j as int)),
            forall|i: int| j <= i < 6 ==> global_t@[i] == t0[i],
    {
        proof {
            lemma_mac_fits(coeff_limbs[j as int], small, global_t[j as int], carry);
        }
        let ghost g0 = global_t@;
        let ghost c0 = carry;
        assert(small_u128 == small);
        assert((coeff_limbs[j as int] as int) * (small as int) + (global_t[j as int] as int) + (carry as int) <= u128::MAX);
        let m = (coeff_limbs[j] as u128) * small_u128;
        let prod = m + carry + (global_t[j] as u128);
        global_t[j] = prod as u64;
        carry = prod >> 64;
        proof {
            lemma_write_carry(g0, j as int, prod);
            lemma_u128_high_small(prod);
            assert(global_t@ == g0.update(j as int, prod as u64));
            lemma_val_take_step(coeff_limbs@, j as int);
            let w = weight(j as nat) as int;
            let cj = coeff_limbs[j as int] as int;
            assert((prod - g0[j as int]) * w == cj * small * w + c0 * w) by (nonlinear_arith)
                requires
                    prod - g0[j as int] == cj * small + c0;
            assert(small * limbs_val(coeff_limbs@.take(j + 1)) == small * limbs_val(coeff_limbs@.take(j as int)) + cj * small * w) by (nonlinear_arith)
                requires
                    limbs_val(coeff_limbs@.take(j + 1)) == limbs_val(coeff_limbs@.take(j as int)) + cj * w;
        }
    }
    proof {
        lemma_val_take_all(coeff_limbs@);
    }
    let mut j: usize = 4;
    while carry > 0 && j < 6
        invariant
            4 <= j <= 6,
            carry < 0x1_0000_0000_0000_0000,
            limbs_val(global_t@) + carry * weight(j as nat) == limbs_val(t0) + small * limbs_val(coeff_limbs@),
        decreases 6 - j,
    {
        let ghost g0 = global_t@;
        let ghost c0 = carry;
        let sum = (global_t[j] as u128) + carry;
        global_t[j] = sum as u64;
        carry = sum >> 64;
        proof {
            lemma_write_carry(g0, j as int, sum);
            assert(global_t@ == g0.update(j as int, sum as u64));
            lemma_u128_high_small(sum);
        }
        j = j + 1;
    }
    proof {
        lemma_val_take_all(coeff_limbs@);
        let total = limbs_val(t0) + small * limbs_val(coeff_limbs@);
        lemma_val_bound(global_t@);
        if carry == 0 {
            lemma_mul_basics(weight(j as nat) as int);
            lemma_small_mod(total as nat, weight(6));
        } else {
            assert(j == 6);
            vstd::arithmetic::div_mod::lemma_mod_multiples_vanish(carry as int, limbs_val(global_t@) as int, weight(6) as int);
            lemma_small_mod(limbs_val(global_t@), weight(6));
            vstd::arithmetic::mul::lemma_mul_is_commutative(carry as int, weight(6) as int);
        }
    }
}

/// The high half of a sum of two limbs is below 2^64.
proof fn lemma_u128_high_small(x: u128)
    ensures
        (x >> 64u128) < 0x1_0000_0000_0000_0000,
{
    crate::limbs::lemma_u128_split(x);
}

/// Turns a six-limb delayed-reduction accumulator back into a field element: the low
/// four limbs are reduced by `Fp::new`, the overflow limbs folded in with 2^256 mod p.
pub fn finalize_delayed_reduction(global_t: &[u64; 6]) -> (r: StdFr2)
    ensures
        r.is_canonical(),
        r.value() == limbs_val(global_t@) % modulus(),
{
    let low_limbs = [global_t[0], global_t[1], global_t[2], global_t[3]];
    let mut result = fr_new(low_limbs);
    let ghost t = global_t@;
    proof {
        lemma_six_limbs(t);
        assert(low_limbs@ =~= t.take(4));
        crate::bigint_field::lemma_modulus_val();
        lemma_weight_small();
    }
    if global_t[4] > 0 || global_t[5] > 0 {
        let overflow = fr_from_bigint([global_t[4], global_t[5], 0, 0]);
        proof {
            let ov = seq![t[4], t[5], 0u64, 0u64];
            assert([global_t[4], global_t[5], 0u64, 0u64]@ =~= ov);
            lemma_val_zero_tail(ov, 2);
            assert(ov.take(2) =~= t.skip(4));
        }
        let overflow_fr = overflow.unwrap();
        let r256 = fr_r_256();
        let scaled = fr_mul(&overflow_fr, &r256);
        let sum = fr_add(&result, &scaled);
        proof {
            let lo = limbs_val(t.take(4)) as int;
            let hi = limbs_val(t.skip(4)) as int;
            let w = weight(4) as int;
            assert(hi < modulus()) by {
                assert(weight(2) < modulus());
            }
            lemma_md_canonical(hi as nat);
            lemma_fe_mul_md(overflow_fr.value(), r256.value(), hi, w);
            lemma_md_canonical(overflow_fr.value());
            lemma_fe_add_md(result.value(), scaled.value(), lo, hi * w);
            assert(limbs_val(t) == lo + hi * w);
        }
        result = sum;
    } else {
        proof {
            lemma_mul_basics(limb_base() as int);
            lemma_mul_basics(weight(4) as int);
        }
    }
    result
}

/// The raw integer product `small * big` (five limbs, no reduction), turned into a
/// field element as in `finalize_delayed_reduction`: `Fp::new` on the low limbs, the
/// overflow limb times 2^256 mod p.
pub fn small_big_mul_raw(small: u64, big: &StdFr2) -> (r: StdFr2)
    ensures
        r.is_canonical(),
        r.value() == fe_mul(big.value(), small as nat),
{
    let res = raw_mul_small(&big.0, small);
    let wide = [res[0], res[1], res[2], res[3], res[4], 0];
    proof {
        assert(wide@.take(5) =~= res@);
        lemma_val_zero_tail(wide@, 5);
    }
    finalize_delayed_reduction(&wide)
}

// ================================================================================
// Dot products.
// ================================================================================

/// A field element whose standard representative fits in its low limb.
pub open spec fn is_small(e: StdFr2) -> bool {
    e.0[1] == 0 && e.0[2] == 0 && e.0[3] == 0
}

/// The part of term i accumulated without reduction: small * limbs for a small element.
pub open spec fn fast_term(w: StdFr2, cl: [u64; 4]) -> int {
    if is_small(w) {
        w.0[0] * limbs_val(cl@)
    } else {
        0
    }
}

/// The part of term i computed in the field: w * c for an element that is not small.
pub open spec fn slow_term(w: StdFr2, c: StdFr2) -> int {
    if is_small(w) {
        0
    } else {
        (w.value() * c.value()) as int
    }
}

/// sum_{i < n} of the adaptive terms: small elements times the precomputed limbs, the
/// others times the coefficients.
pub open spec fn adaptive_sum(ws: Seq<StdFr2>, cls: Seq<[u64; 4]>, cs: Seq<StdFr2>, n: nat) -> int {
    seq_sum(Seq::new(n, adaptive_terms(ws, cls, cs)))
}

/// The adaptive terms, indexed by i.
pub open spec fn adaptive_terms(ws: Seq<StdFr2>, cls: Seq<[u64; 4]>, cs: Seq<StdFr2>) -> spec_fn(int) -> int {
    |i: int| fast_term(ws[i], cls[i]) + slow_term(ws[i], cs[i])
}

/// sum_{i < n} w_i c_i.
pub open spec fn dot_sum(ws: Seq<StdFr2>, cs: Seq<StdFr2>, n: nat) -> int {
    seq_sum(Seq::new(n, |i: int| (ws[i].value() * cs[i].value()) as int))
}

/// All elements of a slice are canonical.
pub open spec fn all_canonical(s: Seq<StdFr2>) -> bool {
    forall|i: int| 0 <= i < s.len() ==> (#[trigger] s[i]).is_canonical()
}

/// A small element's value is its low limb.
proof fn lemma_small_value(w: StdFr2)
    requires
        is_small(w),
    ensures
        w.value() == w.0[0],
{
    lemma_val_zero_tail(w.0@, 1);
    lemma_val_prefixes(w.0@);
}

/// Accumulates a dot product of a window of field elements with coefficients into
/// `accumulator`: small elements go through the raw small-big multiply-accumulate
/// against the precomputed limbs, the others through a field multiplication.
pub fn adaptive_dot_product_accumulate_precomputed(
    accumulator: &mut StdFr2,
    window_evals: &[StdFr2],
    coeff_limbs: &[[u64; 4]],
    coefficients: &[StdFr2],
)
    requires
        window_evals@.len() == coefficients@.len(),
        coeff_limbs@.len() >= coefficients@.len(),
        old(accumulator).is_canonical(),
        all_canonical(window_evals@),
        all_canonical(coefficients@),
    ensures
        final(accumulator).is_canonical(),
        final(accumulator).value() == md(old(accumulator).value() + adaptive_sum(
            window_evals@,
            coeff_limbs@,
            coefficients@,
            coefficients@.len(),
        )),
{
    let ghost ws = window_evals@;
    let ghost cls = coeff_limbs@;
    let ghost cs = coefficients@;
    let mut global_t = [0u64; 6];
    let mut slow_path_sum = StdFr2::zero();
    proof {
        crate::limbs::lemma_val_zeros(global_t@);
        lemma_md_canonical(0);
        assert(Seq::new(0, adaptive_terms(ws, cls, cs)) =~= Seq::<int>::empty());
        lemma_mul_basics(weight(5) as int);
    }
    for i in 0..coefficients.len()
        invariant
            ws == window_evals@,
            cls == coeff_limbs@,
            cs == coefficients@,
            ws.len() == cs.len(),
            cls.len() >= cs.len(),
            all_canonical(ws),
            all_canonical(cs),
            slow_path_sum.is_canonical(),
            limbs_val(global_t@) <= i * weight(5),
            md(limbs_val(global_t@) + slow_path_sum.value() as int) == md(seq_sum(Seq::new(i as nat, adaptive_terms(ws, cls, cs)))),
    {
        let ghost g0: int = limbs_val(global_t@) as int;
        let ghost s0: int = slow_path_sum.value() as int;
        let bigint = window_evals[i].0;
        proof {
            lemma_seq_sum_new_step(i as nat, adaptive_terms(ws, cls, cs));
            lemma_weight_small();
            crate::limbs::lemma_val_bound(cls[i as int]@);
        }
        if bigint[1] == 0 && bigint[2] == 0 && bigint[3] == 0 {
            let small = bigint[0];
            if small != 0 {
                proof {
                    let l = limbs_val(cls[i as int]@) as int;
                    assert(small * l <= (limb_base() - 1) * (weight(4) - 1)) by (nonlinear_arith)
                        requires
                            small < limb_base(),
                            l < weight(4),
                            0 <= l,
                    ;
                    assert(weight(5) == limb_base() * weight(4));
                    assert(i + 1 <= limb_base()) by {
                        assert(usize::MAX < limb_base());
                    }
                    assert((i + 1) * weight(5) <= weight(6)) by (nonlinear_arith)
                        requires
                            i + 1 <= limb_base(),
                            weight(6) == limb_base() * weight(5),
                            weight(5) >= 0,
                    ;
                    assert(g0 + small * l < (i + 1) * weight(5)) by (nonlinear_arith)
                        requires
                            g0 <= i * weight(5),
                            small * l <= (limb_base() - 1) * (weight(4) - 1),
                            weight(5) == limb_base() * weight(4),
                            weight(4) >= 1,
                    ;
                    lemma_small_mod((g0 + small * l) as nat, weight(6));
                    assert(limbs_val(cls[i as int]@) == l);
                }
                small_big_mac_raw(&mut global_t, small, &coeff_limbs[i]);
            } else {
                proof {
                    lemma_mul_basics(limbs_val(cls[i as int]@) as int);
                    assert(g0 <= (i + 1) * weight(5)) by (nonlinear_arith)
                        requires
                            g0 <= i * weight(5),
                            weight(5) >= 0,
                    ;
                }
            }
            proof {
                assert(ws[i as int].0 == bigint);
                assert(is_small(ws[i as int]));
                assert(fast_term(ws[i as int], cls[i as int]) == small * limbs_val(cls[i as int]@));
                assert(slow_term(ws[i as int], cs[i as int]) == 0);
                assert(adaptive_terms(ws, cls, cs)(i as int) == small * limbs_val(cls[i as int]@));
                assert(limbs_val(global_t@) == g0 + adaptive_terms(ws, cls, cs)(i as int));
                lemma_md_add(g0 + s0, adaptive_terms(ws, cls, cs)(i as int));
                lemma_md_add(seq_sum(Seq::new(i as nat, adaptive_terms(ws, cls, cs))), adaptive_terms(ws, cls, cs)(i as int));
                assert(limbs_val(global_t@) + s0 == (g0 + s0) + adaptive_terms(ws, cls, cs)(i as int));
            }
        } else {
            let prod = fr_mul(&window_evals[i], &coefficients[i]);
            let next = fr_add(&slow_path_sum, &prod);
            proof {
                assert(ws[i as int].0 == bigint);
                assert(!is_small(ws[i as int]));
                assert(fast_term(ws[i as int], cls[i as int]) == 0);
                assert(slow_term(ws[i as int], cs[i as int]) == ws[i as int].value() * cs[i as int].value());
                assert(adaptive_terms(ws, cls, cs)(i as int) == ws[i as int].value() * cs[i as int].value());
                lemma_md_canonical(slow_path_sum.value());
                lemma_md_canonical(ws[i as int].value());
                lemma_md_canonical(cs[i as int].value());
                lemma_fe_mul_md(ws[i as int].value(), cs[i as int].value(), ws[i as int].value() as int, cs[i as int].value() as int);
                lemma_fe_add_md(slow_path_sum.value(), prod.value(), s0, adaptive_terms(ws, cls, cs)(i as int));
                // g0 + md(s0 + term) == g0 + s0 + term modulo p.
                lemma_md_add(g0, s0 + adaptive_terms(ws, cls, cs)(i as int));
                lemma_md_add(g0 + s0, adaptive_terms(ws, cls, cs)(i as int));
                lemma_md_add(seq_sum(Seq::new(i as nat, adaptive_terms(ws, cls, cs))), adaptive_terms(ws, cls, cs)(i as int));
                assert(g0 <= (i + 1) * weight(5)) by (nonlinear_arith)
                    requires
                        g0 <= i * weight(5),
                        weight(5) >= 0,
                ;
            }
            slow_path_sum = next;
        }
    }
    let fin = finalize_delayed_reduction(&global_t);
    let tail = fr_add(&fin, &slow_path_sum);
    let ghost a0 = accumulator.value();
    proof {
        let g = limbs_val(global_t@) as int;
        let s = slow_path_sum.value() as int;
        lemma_md_canonical(slow_path_sum.value());
        lemma_fe_add_md(fin.value(), slow_path_sum.value(), g, s);
        lemma_md_canonical(a0);
        lemma_fe_add_md(a0, tail.value(), a0 as int, g + s);
        lemma_md_add(a0 as int, g + s);
        lemma_md_add(a0 as int, seq_sum(Seq::new(cs.len(), adaptive_terms(ws, cls, cs))));
    }
    *accumulator = fr_add(accumulator, &tail);
}

/// With the coefficients' own limbs as precomputed limbs, the adaptive sum is the plain
/// dot product.
pub proof fn lemma_adaptive_is_dot(ws: Seq<StdFr2>, cls: Seq<[u64; 4]>, cs: Seq<StdFr2>, n: nat)
    requires
        n <= ws.len(),
        n <= cls.len(),
        n <= cs.len(),
        forall|i: int| 0 <= i < n ==> #[trigger] cls[i] == cs[i].0,
    ensures
        adaptive_sum(ws, cls, cs, n) == dot_sum(ws, cs, n),
{
    assert forall|i: int| 0 <= i < n implies #[trigger] adaptive_terms(ws, cls, cs)(i) == (ws[i].value()
        * cs[i].value()) as int by {
        if is_small(ws[i]) {
            lemma_small_value(ws[i]);
        }
    }
    assert(Seq::new(n, adaptive_terms(ws, cls, cs)) =~= Seq::new(n, |i: int| (ws[i].value() * cs[i].value()) as int));
}

/// The legacy form of the adaptive dot product: the coefficients' limbs are read on
/// the fly instead of being precomputed.
pub fn adaptive_dot_product_accumulate(accumulator: &mut StdFr2, window_evals: &[StdFr2], coefficients: &[StdFr2])
    requires
        window_evals@.len() == coefficients@.len(),
        old(accumulator).is_canonical(),
        all_canonical(window_evals@),
        all_canonical(coefficients@),
    ensures
        final(accumulator).is_canonical(),
        final(accumulator).value() == md(old(accumulator).value() + dot_sum(
            window_evals@,
            coefficients@,
            coefficients@.len(),
        )),
{
    let mut limbs: Vec<[u64; 4]> = Vec::new();
    for i in 0..coefficients.len()
        invariant
            limbs@.len() == i,
            forall|j: int| 0 <= j < i ==> #[trigger] limbs@[j] == coefficients@[j].0,
    {
        limbs.push(coefficients[i].0);
    }
    proof {
        lemma_adaptive_is_dot(window_evals@, limbs@, coefficients@, coefficients@.len());
    }
    adaptive_dot_product_accumulate_precomputed(accumulator, window_evals, limbs.as_slice(), coefficients);
}

/// The dot product of an extrapolation window with the kernel coefficients, added to
/// `accumulator`: term by term in the field below the threshold, with delayed
/// reduction from it on.
pub fn extrapolate_dot_product(
    accumulator: &mut StdFr2,
    window_evals: &[StdFr2],
    coeff_limbs: &[[u64; 4]],
    coefficients: &[StdFr2],
)
    requires
        window_evals@.len() >= coefficients@.len(),
        coefficients@.len() >= DELAYED_REDUCTION_THRESHOLD ==> window_evals@.len() == coefficients@.len()
            && coeff_limbs@.len() >= coefficients@.len(),
        old(accumulator).is_canonical(),
        all_canonical(window_evals@),
        all_canonical(coefficients@),
    ensures
        final(accumulator).is_canonical(),
        final(accumulator).value() == md(old(accumulator).value() + (if coefficients@.len()
            < DELAYED_REDUCTION_THRESHOLD {
            dot_sum(window_evals@, coefficients@, coefficients@.len())
        } else {
            adaptive_sum(window_evals@, coeff_limbs@, coefficients@, coefficients@.len())
        })),
{
    if coefficients.len() < DELAYED_REDUCTION_THRESHOLD {
        let ghost a0 = accumulator.value();
        let ghost ws = window_evals@;
        let ghost cs = coefficients@;
        proof {
            lemma_md_canonical(a0);
            assert(Seq::new(0, |i: int| (ws[i].value() * cs[i].value()) as int) =~= Seq::<int>::empty());
        }
        for i in 0..coefficients.len()
            invariant
                ws == window_evals@,
                cs == coefficients@,
                ws.len() >= cs.len(),
                all_canonical(ws),
                all_canonical(cs),
                accumulator.is_canonical(),
                accumulator.value() == md(a0 + dot_sum(ws, cs, i as nat)),
        {
            let term = fr_mul(&window_evals[i], &coefficients[i]);
            let ghost before = accumulator.value();
            proof {
                lemma_md_canonical(ws[i as int].value());
                lemma_md_canonical(cs[i as int].value());
                lemma_fe_mul_md(ws[i as int].value(), cs[i as int].value(), ws[i as int].value() as int, cs[i as int].value() as int);
                lemma_seq_sum_new_step(i as nat, |j: int| (ws[j].value() * cs[j].value()) as int);
                lemma_fe_add_md(before, term.value(), a0 + dot_sum(ws, cs, i as nat), (ws[i as int].value() * cs[i as int].value()) as int);
            }
            *accumulator = fr_add(accumulator, &term);
        }
    } else {
        adaptive_dot_product_accumulate_precomputed(accumulator, window_evals, coeff_limbs, coefficients);
    }
}

} // verus!
