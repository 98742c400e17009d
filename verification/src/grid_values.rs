//! What the grids of the small-value protocol hold: the value at a grid point of the
//! tables' multilinear functions, where a coordinate at infinity stands for the
//! leading coefficient in that variable.
use crate::engine::relayout;
use crate::engine::lemma_relayout_len;
use crate::field_math::{lemma_md_add, lemma_md_idem, md, seq_prod};
use vstd::arithmetic::power::pow;
use crate::poly::lemma_md_sub;
use vstd::arithmetic::power2::pow2;
use vstd::prelude::*;

verus! {

// ================================================================================
// The multilinear function of a table.
// ================================================================================

/// The entries of a table with variable 0 (the lowest bit of the index) fixed to b.
pub open spec fn half_table(t: Seq<int>, b: int) -> Seq<int> {
    Seq::new(t.len() / 2, |x: int| t[2 * x + b])
}

/// The multilinear function of a table at a point, variable 0 first. A coordinate
/// -1 stands for infinity: the function's slope in that variable, its value at 1
/// minus its value at 0.
pub open spec fn ml_value(t: Seq<int>, pt: Seq<int>) -> int
    decreases pt.len(),
{
    if pt.len() == 0 {
        t[0]
    } else {
        let lo = ml_value(half_table(t, 0), pt.drop_first());
        let hi = ml_value(half_table(t, 1), pt.drop_first());
        if pt[0] == -1 {
            hi - lo
        } else {
            lo + pt[0] * (hi - lo)
        }
    }
}

/// Bit j of i.
pub open spec fn bit_of(i: int, j: nat) -> int {
    (i / pow2(j) as int) % 2
}

/// The point of {0,1}^v whose coordinate j is bit j of i.
pub open spec fn bits_point(i: int, v: nat) -> Seq<int> {
    Seq::new(v, |j: int| bit_of(i, j as nat))
}

/// Bit j of q 2^m + i, for i < 2^m: bit j of i below m, bit j - m of q from m on.
pub proof fn lemma_bit_split(q: int, i: int, m: nat, j: nat)
    requires
        q >= 0,
        0 <= i < pow2(m),
    ensures
        j < m ==> bit_of(q * pow2(m) as int + i, j) == bit_of(i, j),
        j >= m ==> bit_of(q * pow2(m) as int + i, j) == bit_of(q, (j - m) as nat),
{
    vstd::arithmetic::power2::lemma_pow2_pos(j);
    vstd::arithmetic::power2::lemma_pow2_pos(m);
    if j < m {
        let e = (m - j) as nat;
        vstd::arithmetic::power2::lemma_pow2_adds(j, e);
        vstd::arithmetic::power2::lemma_pow2_pos(e);
        let pj = pow2(j) as int;
        let pe = pow2(e) as int;
        // (q pj pe + i) / pj = q pe + i / pj
        assert(q * (pj * pe) + i == i + (q * pe) * pj) by (nonlinear_arith);
        vstd::arithmetic::div_mod::lemma_hoist_over_denominator(i, q * pe, pj as nat);
        vstd::arithmetic::power2::lemma_pow2_unfold(e);
        let pe1 = pow2((e - 1) as nat) as int;
        assert(q * pe + i / pj == (q * pe1) * 2 + i / pj) by (nonlinear_arith)
            requires
                pe == 2 * pe1,
        ;
        vstd::arithmetic::div_mod::lemma_mod_multiples_vanish(q * pe1, i / pj, 2);
        assert((q * pe1) * 2 == 2 * (q * pe1)) by (nonlinear_arith);
    } else {
        let e = (j - m) as nat;
        vstd::arithmetic::power2::lemma_pow2_adds(m, e);
        vstd::arithmetic::power2::lemma_pow2_pos(e);
        let pm = pow2(m) as int;
        let pe = pow2(e) as int;
        vstd::arithmetic::div_mod::lemma_div_denominator(q * pm + i, pm, pe);
        vstd::arithmetic::div_mod::lemma_hoist_over_denominator(i, q, pm as nat);
        vstd::arithmetic::div_mod::lemma_basic_div(i, pm);
        assert(q * pm + i == i + q * pm);
    }
}

/// The function at a point of {0,1}^v is the table's entry.
pub proof fn lemma_ml_value_bits(t: Seq<int>, v: nat, i: int)
    requires
        t.len() == pow2(v),
        0 <= i < pow2(v),
    ensures
        ml_value(t, bits_point(i, v)) == t[i],
    decreases v,
{
    if v > 0 {
        let x = i / 2;
        let b = i % 2;
        vstd::arithmetic::power2::lemma_pow2_unfold(v);
        let rest = bits_point(i, v).drop_first();
        assert forall|j: int| 0 <= j < v - 1 implies #[trigger] rest[j] == bits_point(x, (v - 1) as nat)[j] by {
            vstd::arithmetic::power2::lemma2_to64();
            lemma_bit_split(x, b, 1, (j + 1) as nat);
            assert(x * pow2(1) as int + b == i);
        }
        assert(rest =~= bits_point(x, (v - 1) as nat));
        lemma_ml_value_bits(half_table(t, 0), (v - 1) as nat, x);
        lemma_ml_value_bits(half_table(t, 1), (v - 1) as nat, x);
        vstd::arithmetic::power2::lemma2_to64();
        assert(bits_point(i, v)[0] == b);
        vstd::arithmetic::mul::lemma_mul_basics(t[2 * x + 1] - t[2 * x]);
    } else {
        vstd::arithmetic::power2::lemma2_to64();
    }
}

/// The function is affine in each coordinate: at infinity it is the difference of the
/// values at 1 and 0, at any other x the line through them.
pub proof fn lemma_ml_affine(t: Seq<int>, pt: Seq<int>, j: int, x: int)
    requires
        0 <= j < pt.len(),
    ensures
        ml_value(t, pt.update(j, -1)) == ml_value(t, pt.update(j, 1)) - ml_value(t, pt.update(j, 0)),
        x != -1 ==> ml_value(t, pt.update(j, x)) == ml_value(t, pt.update(j, 0)) + x * (ml_value(t, pt.update(j, 1))
            - ml_value(t, pt.update(j, 0))),
    decreases j,
{
    if j == 0 {
        assert(pt.update(0, -1).drop_first() =~= pt.drop_first());
        assert(pt.update(0, 0).drop_first() =~= pt.drop_first());
        assert(pt.update(0, 1).drop_first() =~= pt.drop_first());
        assert(pt.update(0, x).drop_first() =~= pt.drop_first());
        let lo = ml_value(half_table(t, 0), pt.drop_first());
        let hi = ml_value(half_table(t, 1), pt.drop_first());
        vstd::arithmetic::mul::lemma_mul_basics(hi - lo);
    } else {
        let r = pt.drop_first();
        assert forall|y: int| #[trigger] pt.update(j, y).drop_first() == r.update(j - 1, y) && pt.update(j, y)[0] == pt[0] by {
            assert(pt.update(j, y).drop_first() =~= r.update(j - 1, y));
        }
        lemma_ml_affine(half_table(t, 0), r, j - 1, x);
        lemma_ml_affine(half_table(t, 1), r, j - 1, x);
        let l0 = ml_value(half_table(t, 0), r.update(j - 1, 0));
        let l1 = ml_value(half_table(t, 0), r.update(j - 1, 1));
        let h0 = ml_value(half_table(t, 1), r.update(j - 1, 0));
        let h1 = ml_value(half_table(t, 1), r.update(j - 1, 1));
        let p = pt[0];
        assert(pt.update(j, -1).drop_first() == r.update(j - 1, -1));
        assert(pt.update(j, 0).drop_first() == r.update(j - 1, 0));
        assert(pt.update(j, 1).drop_first() == r.update(j - 1, 1));
        assert(pt.update(j, x).drop_first() == r.update(j - 1, x));
        assert(pt.update(j, -1)[0] == p && pt.update(j, 0)[0] == p && pt.update(j, 1)[0] == p && pt.update(j, x)[0] == p);
        assert((l1 - l0) + p * ((h1 - h0) - (l1 - l0)) == (l1 + p * (h1 - l1)) - (l0 + p * (h0 - l0))) by (nonlinear_arith);
        assert((l0 + x * (l1 - l0)) + p * ((h0 + x * (h1 - h0)) - (l0 + x * (l1 - l0))) == (l0 + p * (h0 - l0)) + x * ((l1
            + p * (h1 - l1)) - (l0 + p * (h0 - l0)))) by (nonlinear_arith);
        assert((h0 + x * (h1 - h0)) - (l0 + x * (l1 - l0)) == (h0 - l0) + x * ((h1 - l1) - (h0 - l0))) by (nonlinear_arith);
    }
}

} // verus!

verus! {

// ================================================================================
// The relayout onto U_1^v.
// ================================================================================

/// The point of the index after m relayout passes: variables below m on U_1 = {inf, 0}
/// (bit 0 for infinity, bit 1 for the point 0), the others still bits.
pub open spec fn mixed_point(idx: int, m: nat, v: nat) -> Seq<int> {
    Seq::new(v, |j: int| if j < m { if bit_of(idx, j as nat) == 0 { -1 } else { 0 } } else { bit_of(idx, j as nat) })
}

/// The bits of q 2^m + i with q = 2c + h: those of i below m, h at m, those of c above.
proof fn lemma_bits_three(c: int, h: int, i: int, m: nat, j: nat)
    requires
        c >= 0,
        0 <= h <= 1,
        0 <= i < pow2(m),
    ensures
        j < m ==> bit_of((2 * c + h) * pow2(m) as int + i, j) == bit_of(i, j),
        j == m ==> bit_of((2 * c + h) * pow2(m) as int + i, j) == h,
        j > m ==> bit_of((2 * c + h) * pow2(m) as int + i, j) == bit_of(c, (j - m - 1) as nat),
{
    lemma_bit_split(2 * c + h, i, m, j);
    vstd::arithmetic::power2::lemma2_to64();
    if j >= m {
        lemma_bit_split(c, h, 1, (j - m) as nat);
        assert(c * pow2(1) as int + h == 2 * c + h);
        if j == m {
            assert(pow2(0) == 1);
            assert((2 * c + h) / 1 == 2 * c + h);
            assert((2 * c + h) % 2 == h) by (nonlinear_arith)
                requires
                    c >= 0,
                    0 <= h <= 1,
            ;
        }
    }
}

/// After m passes, an entry of the relayout is, modulo p, the table's multilinear
/// function at the entry's mixed point.
proof fn lemma_relayout_mixed(t: Seq<int>, v: nat, m: nat, idx: int)
    requires
        t.len() == pow2(v),
        m <= v,
        0 <= idx < pow2(v),
    ensures
        md(relayout(t, m)[idx]) == md(ml_value(t, mixed_point(idx, m, v))),
    decreases m,
{
    if m == 0 {
        assert(mixed_point(idx, 0, v) =~= bits_point(idx, v));
        lemma_ml_value_bits(t, v, idx);
    } else {
        let m1 = (m - 1) as nat;
        let s = pow2(m1) as int;
        vstd::arithmetic::power2::lemma_pow2_pos(m1);
        let q = idx / s;
        let c = q / 2;
        let h = q % 2;
        let i = idx % s;
        vstd::arithmetic::div_mod::lemma_fundamental_div_mod(idx, s);
        vstd::arithmetic::div_mod::lemma_fundamental_div_mod(q, 2);
        vstd::arithmetic::div_mod::lemma_mod_bound(idx, s);
        vstd::arithmetic::div_mod::lemma_mod_bound(q, 2);
        assert(q >= 0 && c >= 0) by {
            vstd::arithmetic::div_mod::lemma_div_pos_is_pos(idx, s);
            vstd::arithmetic::div_mod::lemma_div_pos_is_pos(q, 2);
        }
        assert(idx == (2 * c + h) * s + i) by (nonlinear_arith)
            requires
                idx == s * q + i,
                q == 2 * c + h,
        ;
        let idx0 = (c * 2) * s + i;
        let idx1 = (c * 2 + 1) * s + i;
        // Both partners lie in the table.
        vstd::arithmetic::power2::lemma_pow2_adds(m, (v - m) as nat);
        vstd::arithmetic::power2::lemma_pow2_unfold(m);
        let big = pow2((v - m) as nat) as int;
        vstd::arithmetic::power2::lemma_pow2_pos((v - m) as nat);
        assert(c < big) by (nonlinear_arith)
            requires
                idx == (2 * c + h) * s + i,
                idx < 2 * s * big,
                s > 0,
                i >= 0,
                h >= 0,
                c >= 0,
        ;
        assert(idx1 < 2 * s * big) by (nonlinear_arith)
            requires
                idx1 == (c * 2 + 1) * s + i,
                i < s,
                c < big,
                c >= 0,
                s > 0,
        ;
        assert(idx0 >= 0 && idx0 <= idx1) by (nonlinear_arith)
            requires
                idx0 == (c * 2) * s + i,
                idx1 == (c * 2 + 1) * s + i,
                i >= 0,
                c >= 0,
                s > 0,
        ;
        assert(pow2(v) == 2 * s * big) by (nonlinear_arith)
            requires
                pow2(v) == pow2(m) * big,
                pow2(m) == 2 * s,
        ;
        let r = relayout(t, m1);
        lemma_relayout_len(t, m1);
        lemma_relayout_mixed(t, v, m1, idx0);
        lemma_relayout_mixed(t, v, m1, idx1);
        let base = mixed_point(idx, m1, v);
        assert(idx0 == (2 * c + 0) * s + i);
        assert(idx1 == (2 * c + 1) * s + i);
        assert forall|j: int| 0 <= j < v implies #[trigger] mixed_point(idx0, m1, v)[j] == base.update(m1 as int, 0)[j] by {
            lemma_bits_three(c, h, i, m1, j as nat);
            lemma_bits_three(c, 0, i, m1, j as nat);
        }
        assert forall|j: int| 0 <= j < v implies #[trigger] mixed_point(idx1, m1, v)[j] == base.update(m1 as int, 1)[j] by {
            lemma_bits_three(c, h, i, m1, j as nat);
            lemma_bits_three(c, 1, i, m1, j as nat);
        }
        let hv = if h == 0 {
            -1
        } else {
            0
        };
        assert forall|j: int| 0 <= j < v implies #[trigger] mixed_point(idx, m, v)[j] == base.update(m1 as int, hv)[j] by {
            lemma_bits_three(c, h, i, m1, j as nat);
        }
        assert(mixed_point(idx0, m1, v) =~= base.update(m1 as int, 0));
        assert(mixed_point(idx1, m1, v) =~= base.update(m1 as int, 1));
        lemma_ml_affine(t, base, m1 as int, 0);
        assert(relayout(t, m) == crate::engine::relayout_step(r, pow2(m1)));
        if h == 0 {
            assert(mixed_point(idx, m, v) =~= base.update(m1 as int, -1));
            lemma_md_idem(r[idx1] - r[idx0]);
            lemma_md_sub(r[idx1], r[idx0]);
            lemma_md_sub(ml_value(t, base.update(m1 as int, 1)), ml_value(t, base.update(m1 as int, 0)));
        } else {
            assert(mixed_point(idx, m, v) =~= base.update(m1 as int, 0));
        }
    }
}

} // verus!

verus! {

// ================================================================================
// Grids over U_k^v and their extension.
// ================================================================================

/// Digit e of x in base b.
pub open spec fn digit(x: int, b: nat, e: nat) -> int {
    (x / pow(b as int, e)) % (b as int)
}

/// The point of a grid digit: 0 for infinity (-1), t + 1 for the value t.
pub open spec fn coord(dg: int) -> int {
    if dg == 0 {
        -1
    } else {
        dg - 1
    }
}

/// The point of index idx in a grid whose v variables (variable 0 at stride 1) have
/// base bk, except the top j, which have base bd.
pub open spec fn grid_pt(idx: int, bk: nat, bd: nat, v: nat, j: nat) -> Seq<int> {
    Seq::new(
        v,
        |var: int|
            if var < v - j {
                coord(digit(idx, bk, var as nat))
            } else {
                coord(digit(idx / pow(bk as int, (v - j) as nat), bd, (var - (v - j)) as nat))
            },
    )
}

/// The product of the tables' multilinear functions at a point.
pub open spec fn prod_value(ts: Seq<Seq<int>>, pt: Seq<int>) -> int {
    seq_prod(Seq::new(ts.len(), |s: int| ml_value(ts[s], pt)))
}

/// Digit j of q b^m + i, for i < b^m: digit j of i below m, digit j - m of q from m on.
pub proof fn lemma_digit_split(q: int, i: int, b: nat, m: nat, j: nat)
    requires
        q >= 0,
        b >= 2,
        0 <= i < pow(b as int, m),
    ensures
        j < m ==> digit(q * pow(b as int, m) + i, b, j) == digit(i, b, j),
        j >= m ==> digit(q * pow(b as int, m) + i, b, j) == digit(q, b, (j - m) as nat),
{
    let bi = b as int;
    vstd::arithmetic::power::lemma_pow_positive(bi, j);
    vstd::arithmetic::power::lemma_pow_positive(bi, m);
    if j < m {
        let e = (m - j) as nat;
        vstd::arithmetic::power::lemma_pow_adds(bi, j, e);
        vstd::arithmetic::power::lemma_pow_positive(bi, e);
        let pj = pow(bi, j);
        let pe = pow(bi, e);
        assert(q * (pj * pe) + i == i + (q * pe) * pj) by (nonlinear_arith);
        vstd::arithmetic::div_mod::lemma_hoist_over_denominator(i, q * pe, pj as nat);
        vstd::arithmetic::power::lemma_pow_adds(bi, 1, (e - 1) as nat);
        vstd::arithmetic::power::lemma_pow1(bi);
        let pe1 = pow(bi, (e - 1) as nat);
        assert(q * pe + i / pj == (q * pe1) * bi + i / pj) by (nonlinear_arith)
            requires
                pe == bi * pe1,
        ;
        vstd::arithmetic::div_mod::lemma_mod_multiples_vanish(q * pe1, i / pj, bi);
        assert((q * pe1) * bi == bi * (q * pe1)) by (nonlinear_arith);
    } else {
        let e = (j - m) as nat;
        vstd::arithmetic::power::lemma_pow_adds(bi, m, e);
        vstd::arithmetic::power::lemma_pow_positive(bi, e);
        let pm = pow(bi, m);
        let pe = pow(bi, e);
        vstd::arithmetic::div_mod::lemma_div_denominator(q * pm + i, pm, pe);
        vstd::arithmetic::div_mod::lemma_hoist_over_denominator(i, q, pm as nat);
        vstd::arithmetic::div_mod::lemma_basic_div(i, pm);
        assert(q * pm + i == i + q * pm);
    }
}

/// The product of d affine functions is the polynomial through the lines, with the
/// product of the slopes as its leading coefficient.
pub(crate) proof fn lemma_prod_lines(lo: Seq<int>, hi: Seq<int>, k: nat, x: int)
    requires
        lo.len() == k,
        hi.len() == k,
    ensures
        ({
            let lines = Seq::new(k, |s: int| seq![lo[s], hi[s]]);
            &&& crate::completeness::pair_poly(lines, 0, k).len() == k + 1
            &&& crate::poly::peval(crate::completeness::pair_poly(lines, 0, k), x) == seq_prod(
                Seq::new(k, |s: int| lo[s] + x * (hi[s] - lo[s])),
            )
            &&& crate::poly::coef(crate::completeness::pair_poly(lines, 0, k), k as int) == seq_prod(
                Seq::new(k, |s: int| hi[s] - lo[s]),
            )
        }),
{
    let lines = Seq::new(k, |s: int| seq![lo[s], hi[s]]);
    crate::completeness::lemma_pair_poly(lines, 0, k, x);
    assert(Seq::new(k, crate::completeness::line_at(lines, 0, x)) =~= Seq::new(k, |s: int| lo[s] + x * (hi[s] - lo[s])));
    assert(Seq::new(k, crate::completeness::slopes(lines, 0)) =~= Seq::new(k, |s: int| hi[s] - lo[s]));
}

} // verus!

verus! {

/// Digit 0 is the remainder.
proof fn lemma_digit_zero(x: int, b: nat)
    requires
        b >= 1,
    ensures
        digit(x, b, 0) == x % (b as int),
{
    vstd::arithmetic::power::lemma_pow0(b as int);
}

/// The points of the entries around one axis extension: an entry of the extended grid
/// and the entries of its line in the grid before differ only in the axis' variable.
pub(crate) proof fn lemma_axis_points(a: int, pos: int, b: int, t: int, k: nat, n: nat, v: nat, j: nat)
    requires
        j < v,
        k >= 1,
        a >= 0,
        0 <= pos < k + n + 1,
        0 <= b < pow((k + 1) as int, (v - j - 1) as nat),
        0 <= t <= k,
    ensures
        ({
            let bk = (k + 1) as nat;
            let bd = (k + n + 1) as nat;
            let u = (v - j - 1) as nat;
            let right = pow(bk as int, u);
            let i = ((a * bd + pos) * right + b);
            let io = ((a * bk + t) * right + b);
            &&& grid_pt(i, bk, bd, v, j + 1)[u as int] == coord(pos)
            &&& grid_pt(io, bk, bd, v, j) == grid_pt(i, bk, bd, v, j + 1).update(u as int, coord(t))
        }),
{
    let bk = (k + 1) as nat;
    let bd = (k + n + 1) as nat;
    let u = (v - j - 1) as nat;
    let right = pow(bk as int, u);
    vstd::arithmetic::power::lemma_pow_positive(bk as int, u);
    let xx = a * bd + pos;
    let yy = a * bk + t;
    let i = xx * right + b;
    let io = yy * right + b;
    assert(xx >= 0 && yy >= 0) by (nonlinear_arith)
        requires
            a >= 0,
            pos >= 0,
            t >= 0,
            bd >= 1,
            bk >= 1,
            xx == a * bd + pos,
            yy == a * bk + t,
    ;
    crate::engine::lemma_grid_coords(a, pos, b, bd as int, right);
    crate::engine::lemma_grid_coords(a, t, b, bk as int, right);
    vstd::arithmetic::power::lemma_pow_adds(bk as int, u, 1);
    vstd::arithmetic::power::lemma_pow1(bk as int);
    vstd::arithmetic::power::lemma_pow1(bd as int);
    vstd::arithmetic::div_mod::lemma_div_denominator(io, right, bk as int);
    assert(io / pow(bk as int, (u + 1) as nat) == a);
    assert(i / pow(bk as int, u) == xx);
    let np = grid_pt(i, bk, bd, v, j + 1);
    let op = grid_pt(io, bk, bd, v, j);
    assert forall|var: int| 0 <= var < v implies #[trigger] op[var] == np.update(u as int, coord(t))[var] by {
        if var < u {
            lemma_digit_split(xx, b, bk, u, var as nat);
            lemma_digit_split(yy, b, bk, u, var as nat);
        } else if var == u {
            lemma_digit_split(yy, b, bk, u, var as nat);
            lemma_digit_zero(yy, bk);
        } else {
            lemma_digit_split(a, pos, bd, 1, (var - u) as nat);
            assert(v - (j + 1) == u);
            assert(v - j == u + 1);
        }
    }
    assert(op =~= np.update(u as int, coord(t)));
    lemma_digit_split(a, pos, bd, 1, 0);
    lemma_digit_zero(pos, bd);
    vstd::arithmetic::div_mod::lemma_small_mod(pos as nat, bd);
}

} // verus!

verus! {

/// Along a variable the product is the polynomial through the tables' lines: at x it is
/// prod_s (lo_s + x (hi_s - lo_s)), at infinity prod_s (hi_s - lo_s).
pub(crate) proof fn lemma_prod_along(ts: Seq<Seq<int>>, pt: Seq<int>, u: int, x: int)
    requires
        0 <= u < pt.len(),
    ensures
        ({
            let lo = Seq::new(ts.len(), |s: int| ml_value(ts[s], pt.update(u, 0)));
            let hi = Seq::new(ts.len(), |s: int| ml_value(ts[s], pt.update(u, 1)));
            &&& x != -1 ==> prod_value(ts, pt.update(u, x)) == seq_prod(
                Seq::new(ts.len(), |s: int| lo[s] + x * (hi[s] - lo[s])),
            )
            &&& prod_value(ts, pt.update(u, -1)) == seq_prod(Seq::new(ts.len(), |s: int| hi[s] - lo[s]))
        }),
{
    let lo = Seq::new(ts.len(), |s: int| ml_value(ts[s], pt.update(u, 0)));
    let hi = Seq::new(ts.len(), |s: int| ml_value(ts[s], pt.update(u, 1)));
    assert forall|s: int| 0 <= s < ts.len() implies #[trigger] ml_value(ts[s], pt.update(u, -1)) == hi[s] - lo[s] by {
        lemma_ml_affine(ts[s], pt, u, x);
    }
    if x != -1 {
        assert forall|s: int| 0 <= s < ts.len() implies #[trigger] ml_value(ts[s], pt.update(u, x)) == lo[s] + x * (hi[s]
            - lo[s]) by {
            lemma_ml_affine(ts[s], pt, u, x);
        }
        assert(Seq::new(ts.len(), |s: int| ml_value(ts[s], pt.update(u, x))) =~= Seq::new(
            ts.len(),
            |s: int| lo[s] + x * (hi[s] - lo[s]),
        ));
    }
    assert(Seq::new(ts.len(), |s: int| ml_value(ts[s], pt.update(u, -1))) =~= Seq::new(ts.len(), |s: int| hi[s] - lo[s]));
}

} // verus!

verus! {

/// A product over d factors splits at m.
proof fn lemma_prod_split(d: nat, m: nat, f: spec_fn(int) -> int)
    requires
        m <= d,
    ensures
        seq_prod(Seq::new(d, f)) == seq_prod(Seq::new(m, f)) * seq_prod(Seq::new((d - m) as nat, |s: int| f(m + s))),
    decreases d,
{
    if d == m {
        assert(Seq::new(0, |s: int| f(m + s)) =~= Seq::<int>::empty());
        vstd::arithmetic::mul::lemma_mul_basics(seq_prod(Seq::new(m, f)));
    } else {
        let d1 = (d - 1) as nat;
        lemma_prod_split(d1, m, f);
        crate::field_math::lemma_seq_prod_new_step(d1, f);
        crate::field_math::lemma_seq_prod_new_step((d1 - m) as nat, |s: int| f(m + s));
        assert((d - m) as nat == (d1 - m + 1) as nat);
        let a = seq_prod(Seq::new(m, f));
        let b = seq_prod(Seq::new((d1 - m) as nat, |s: int| f(m + s)));
        assert((a * b) * f(d1 as int) == a * (b * f(d1 as int))) by (nonlinear_arith);
    }
}

/// The point of index i of the grid over U_d^v.
pub open spec fn grid_point(i: int, d: nat, v: nat) -> Seq<int> {
    Seq::new(v, |var: int| coord(digit(i, d + 1, var as nat)))
}

/// Multi-product evaluation is exact: under Fermat, entry i of the product grid of d
/// multilinear tables over {0,1}^v is, modulo p, the product of the tables'
/// multilinear functions at point i of U_d^v, where digit 0 of a variable stands for
/// infinity (the slope of every factor, so the product's leading coefficient in that
/// variable) and digit t + 1 for the value t.
pub proof fn lemma_product_grid_values(polys: Seq<Seq<int>>, d: nat, v: nat)
    requires
        crate::poly::fermat_holds(),
        polys.len() == d,
        1 <= d <= usize::MAX,
        forall|k: int| 0 <= k < d ==> (#[trigger] polys[k]).len() == pow2(v),
    ensures
        crate::engine::product_grid(polys, d, v).len() == pow((d + 1) as int, v),
        forall|i: int| 0 <= i < pow((d + 1) as int, v) ==> md(#[trigger] crate::engine::product_grid(polys, d, v)[i]) == md(
            prod_value(polys, grid_point(i, d, v)),
        ),
    decreases d,
{
    crate::engine::lemma_product_grid_len(polys, d, v);
    if d == 1 {
        let t = polys[0];
        assert forall|i: int| 0 <= i < pow((d + 1) as int, v) implies md(#[trigger] crate::engine::product_grid(polys, d, v)[i])
            == md(prod_value(polys, grid_point(i, d, v))) by {
            vstd::arithmetic::power2::lemma_pow2(v);
            lemma_relayout_mixed(t, v, v, i);
            assert forall|var: int| 0 <= var < v implies #[trigger] mixed_point(i, v, v)[var] == grid_point(i, d, v)[var] by {
                vstd::arithmetic::power2::lemma_pow2(var as nat);
                vstd::arithmetic::div_mod::lemma_mod_bound(i / pow2(var as nat) as int, 2);
            }
            assert(mixed_point(i, v, v) =~= grid_point(i, d, v));
            let f = |s: int| ml_value(polys[s], grid_point(i, d, v));
            crate::field_math::lemma_seq_prod_new_step(0, f);
            assert(Seq::new(0, f) =~= Seq::<int>::empty());
            vstd::arithmetic::mul::lemma_mul_basics(f(0));
        }
    } else {
        let m = d / 2;
        let lt = polys.subrange(0, m as int);
        let rt = polys.subrange(m as int, d as int);
        let dm = (d - m) as nat;
        assert forall|k: int| 0 <= k < m implies (#[trigger] lt[k]).len() == pow2(v) by {
            assert(lt[k] == polys[k]);
        }
        assert forall|k: int| 0 <= k < dm implies (#[trigger] rt[k]).len() == pow2(v) by {
            assert(rt[k] == polys[m + k]);
        }
        lemma_product_grid_values(lt, m, v);
        lemma_product_grid_values(rt, dm, v);
        let gl = crate::engine::product_grid(lt, m, v);
        let gr = crate::engine::product_grid(rt, dm, v);
        // Each half's product has degree at most its number of factors in each variable.
        crate::extrapolation::lemma_products_separately_polynomial(lt, v);
        crate::extrapolation::lemma_products_separately_polynomial(rt, v);
        crate::extrapolation::lemma_extrapolation_general(
            gl,
            crate::extrapolation::product_fn(lt),
            crate::extrapolation::product_lines(lt),
            m,
            dm,
            v,
        );
        crate::extrapolation::lemma_extrapolation_general(
            gr,
            crate::extrapolation::product_fn(rt),
            crate::extrapolation::product_lines(rt),
            dm,
            m,
            v,
        );
        let lp = crate::engine::extend_axes(gl, m, dm, v, v);
        let rp = crate::engine::extend_axes(gr, dm, m, v, v);
        vstd::arithmetic::power::lemma_pow0((m + 1) as int);
        vstd::arithmetic::power::lemma_pow0((dm + 1) as int);
        assert forall|i: int| 0 <= i < pow((d + 1) as int, v) implies md(#[trigger] crate::engine::product_grid(polys, d, v)[i])
            == md(prod_value(polys, grid_point(i, d, v))) by {
            let pt = grid_point(i, d, v);
            assert(grid_point(i, (m + dm) as nat, v) =~= pt);
            assert(grid_point(i, (dm + m) as nat, v) =~= pt);
            let f = |s: int| ml_value(polys[s], pt);
            lemma_prod_split(d, m, f);
            assert(Seq::new(m, |s: int| ml_value(lt[s], pt)) =~= Seq::new(m, f));
            assert(Seq::new(dm, |s: int| ml_value(rt[s], pt)) =~= Seq::new(dm, |s: int| f(m + s)));
            let pl = prod_value(lt, pt);
            let pr = prod_value(rt, pt);
            crate::field_math::lemma_md_mul(lp[i], rp[i]);
            crate::field_math::lemma_md_mul(pl, pr);
            lemma_md_idem(lp[i] * rp[i]);
        }
    }
}

} // verus!
