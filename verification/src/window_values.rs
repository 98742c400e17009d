//! Completeness of the small-value protocol's window: the grid accumulated offline
//! holds, at every point, the sum over the chunks of the product of the tables'
//! multilinear functions; reading it gives the linear-time prover's messages, and
//! folding it with a challenge gives the grid of the folded tables.
use crate::completeness::lemma_sum_congruent;
use crate::field_math::{lemma_md_add, lemma_md_idem, lemma_md_mul, lemma_seq_sum_new_step, md, seq_prod, seq_sum};
use crate::grid_values::{bit_of, bits_point, coord, digit, grid_point, half_table, lemma_digit_split, lemma_ml_value_bits, lemma_product_grid_values, ml_value, prod_value};
use crate::protocol::{bit, chunk_tables, future_offset, grid_column, grid_message, point_digit};
use crate::sumcheck_model::{pair_term, point_term, product_prefix, round_message, round_sum};
use crate::engine::{u_hat_domain, EvaluationPoint};
use vstd::arithmetic::power::pow;
use vstd::arithmetic::power2::pow2;
use vstd::prelude::*;

verus! {

// ================================================================================
// Sums.
// ================================================================================

/// A sum over a + b terms splits after the first a.
pub proof fn lemma_sum_split(a: nat, b: nat, f: spec_fn(int) -> int)
    ensures
        seq_sum(Seq::new(a + b, f)) == seq_sum(Seq::new(a, f)) + seq_sum(Seq::new(b, |x: int| f(a + x))),
    decreases b,
{
    if b == 0 {
        assert(Seq::new(0, |x: int| f(a + x)) =~= Seq::<int>::empty());
        assert(Seq::new(a + b, f) =~= Seq::new(a, f));
    } else {
        let b1 = (b - 1) as nat;
        lemma_sum_split(a, b1, f);
        lemma_seq_sum_new_step(a + b1, f);
        lemma_seq_sum_new_step(b1, |x: int| f(a + x));
    }
}

/// A sum over nc blocks of s terms is the sum over nc s terms.
pub proof fn lemma_sum_blocks(nc: nat, s: nat, f: spec_fn(int) -> int)
    ensures
        seq_sum(Seq::new(nc, |c: int| seq_sum(Seq::new(s, |x: int| f(c * s + x))))) == seq_sum(Seq::new(nc * s, f)),
    decreases nc,
{
    if nc == 0 {
        assert(Seq::new(0, |c: int| seq_sum(Seq::new(s, |x: int| f(c * s + x)))) =~= Seq::<int>::empty());
        assert(Seq::new(0 * s, f) =~= Seq::<int>::empty());
    } else {
        let n1 = (nc - 1) as nat;
        lemma_sum_blocks(n1, s, f);
        lemma_seq_sum_new_step(n1, |c: int| seq_sum(Seq::new(s, |x: int| f(c * s + x))));
        assert(nc * s == n1 * s + s) by (nonlinear_arith)
            requires
                nc == n1 + 1,
        ;
        lemma_sum_split(n1 * s, s, f);
        assert(Seq::new(s, |x: int| f(n1 * s + x)) =~= Seq::new(s, |x: int| f((n1 * s) as int + x)));
    }
}

/// Row i of a table of terms, as a function of the column.
pub open spec fn row_of(f: spec_fn(int, int) -> int, i: int) -> spec_fn(int) -> int {
    |j: int| f(i, j)
}

/// Column j of a table of terms, as a function of the row.
pub open spec fn col_of(f: spec_fn(int, int) -> int, j: int) -> spec_fn(int) -> int {
    |i: int| f(i, j)
}

/// The sums of the first b terms of each row.
pub open spec fn row_sums(f: spec_fn(int, int) -> int, b: nat) -> spec_fn(int) -> int {
    |i: int| seq_sum(Seq::new(b, row_of(f, i)))
}

/// The sums of the first a terms of each column.
pub open spec fn col_sums(f: spec_fn(int, int) -> int, a: nat) -> spec_fn(int) -> int {
    |j: int| seq_sum(Seq::new(a, col_of(f, j)))
}

/// Sums of sums can be taken in either order.
pub proof fn lemma_sum_swap(a: nat, b: nat, f: spec_fn(int, int) -> int)
    ensures
        seq_sum(Seq::new(a, row_sums(f, b))) == seq_sum(Seq::new(b, col_sums(f, a))),
    decreases a,
{
    if a == 0 {
        assert(Seq::new(0, row_sums(f, b)) =~= Seq::<int>::empty());
        assert forall|j: int| 0 <= j < b implies #[trigger] col_sums(f, 0)(j) == 0 by {
            assert(Seq::new(0, col_of(f, j)) =~= Seq::<int>::empty());
        }
        lemma_sum_zero(b, col_sums(f, 0));
    } else {
        let a1 = (a - 1) as nat;
        lemma_sum_swap(a1, b, f);
        lemma_seq_sum_new_step(a1, row_sums(f, b));
        assert forall|j: int| 0 <= j < b implies #[trigger] col_sums(f, a)(j) == col_sums(f, a1)(j) + row_of(f, a1 as int)(j) by {
            lemma_seq_sum_new_step(a1, col_of(f, j));
        }
        lemma_sum_add(b, col_sums(f, a1), row_of(f, a1 as int));
        assert(Seq::new(b, col_sums(f, a)) =~= Seq::new(b, |j: int| col_sums(f, a1)(j) + row_of(f, a1 as int)(j)));
    }
}

/// A sum of zeros.
proof fn lemma_sum_zero(n: nat, f: spec_fn(int) -> int)
    requires
        forall|j: int| 0 <= j < n ==> #[trigger] f(j) == 0,
    ensures
        seq_sum(Seq::new(n, f)) == 0,
    decreases n,
{
    if n == 0 {
        assert(Seq::new(0, f) =~= Seq::<int>::empty());
    } else {
        lemma_sum_zero((n - 1) as nat, f);
        lemma_seq_sum_new_step((n - 1) as nat, f);
    }
}

/// The sum of f + g.
pub proof fn lemma_sum_add(n: nat, f: spec_fn(int) -> int, g: spec_fn(int) -> int)
    ensures
        seq_sum(Seq::new(n, |x: int| f(x) + g(x))) == seq_sum(Seq::new(n, f)) + seq_sum(Seq::new(n, g)),
    decreases n,
{
    if n == 0 {
        assert(Seq::new(0, |x: int| f(x) + g(x)) =~= Seq::<int>::empty());
        assert(Seq::new(0, f) =~= Seq::<int>::empty());
        assert(Seq::new(0, g) =~= Seq::<int>::empty());
    } else {
        let m = (n - 1) as nat;
        lemma_sum_add(m, f, g);
        lemma_seq_sum_new_step(m, |x: int| f(x) + g(x));
        lemma_seq_sum_new_step(m, f);
        lemma_seq_sum_new_step(m, g);
    }
}

} // verus!

verus! {

// ================================================================================
// The grid of a set of tables, and its points.
// ================================================================================

/// The sum over the nc chunks (of 2^w points) of the product of the chunk's
/// multilinear functions at pt.
pub open spec fn chunk_point_sum(tv: Seq<Seq<int>>, w: nat, nc: nat, pt: Seq<int>) -> int {
    seq_sum(Seq::new(nc, |c: int| prod_value(chunk_tables(tv, c, pow2(w)), pt)))
}

/// The grid over U_d^w of the tables: at every point, the reduced chunk sum.
pub open spec fn chunk_grid(tv: Seq<Seq<int>>, d: nat, w: nat, nc: nat) -> Seq<int> {
    Seq::new(pow((d + 1) as int, w) as nat, |g: int| md(chunk_point_sum(tv, w, nc, grid_point(g, d, w))))
}

/// The future coordinates' digits of x (bit j plus one at digit j).
pub open spec fn future_digits(x: int, rem: nat, base: nat) -> int
    decreases rem,
{
    if rem == 0 {
        0
    } else {
        future_digits(x, (rem - 1) as nat, base) + (bit(x, (rem - 1) as nat) + 1) * pow(base as int, (rem - 1) as nat)
    }
}

/// The future offset is the base times the future digits, whose digit j is bit j of x
/// plus one.
proof fn lemma_future_digits(x: int, rem: nat, base: nat)
    requires
        base >= 3,
        x >= 0,
    ensures
        future_offset(x, rem, base) == base * future_digits(x, rem, base),
        0 <= future_digits(x, rem, base) < pow(base as int, rem),
        forall|j: nat| j < rem ==> #[trigger] digit(future_digits(x, rem, base), base, j) == bit(x, j) + 1,
    decreases rem,
{
    let b = base as int;
    vstd::arithmetic::power::lemma_pow0(b);
    if rem > 0 {
        let r1 = (rem - 1) as nat;
        lemma_future_digits(x, r1, base);
        let fd1 = future_digits(x, r1, base);
        let p1 = pow(b, r1);
        vstd::arithmetic::power::lemma_pow_positive(b, r1);
        vstd::arithmetic::power::lemma_pow_adds(b, 1, r1);
        vstd::arithmetic::power::lemma_pow1(b);
        vstd::arithmetic::power2::lemma_pow2_pos(r1);
        vstd::arithmetic::div_mod::lemma_mod_bound(x / pow2(r1) as int, 2);
        let dd = bit(x, r1) + 1;
        assert(1 <= dd <= 2);
        assert(fd1 + dd * p1 < b * p1) by (nonlinear_arith)
            requires
                0 <= fd1 < p1,
                1 <= dd <= 2,
                b >= 3,
        ;
        assert(0 <= fd1 + dd * p1) by (nonlinear_arith)
            requires
                0 <= fd1,
                1 <= dd,
                p1 > 0,
        ;
        assert(b * fd1 + dd * (b * p1) == b * (fd1 + dd * p1)) by (nonlinear_arith);
        assert forall|j: nat| j < rem implies #[trigger] digit(future_digits(x, rem, base), base, j) == bit(x, j) + 1 by {
            lemma_digit_split(dd, fd1, base, r1, j);
            assert(dd * p1 + fd1 == fd1 + dd * p1);
            if j == r1 {
                vstd::arithmetic::div_mod::lemma_small_mod(dd as nat, base);
                assert(digit(dd, base, 0) == dd % b);
            }
        }
    }
}

/// The grid point of the entry read for U_d_hat entry u and future point x: the
/// entry's point, then the bits of x.
proof fn lemma_message_point(u: int, x: int, d: nat, rem: nat)
    requires
        2 <= d,
        0 <= u < d,
        x >= 0,
    ensures
        0 <= point_digit(u) + future_offset(x, rem, d + 1) < pow((d + 1) as int, rem + 1),
        grid_point(point_digit(u) + future_offset(x, rem, d + 1), d, rem + 1) == seq![coord(point_digit(u))] + bits_point(x, rem),
{
    let base = (d + 1) as nat;
    let b = base as int;
    lemma_future_digits(x, rem, base);
    let fd = future_digits(x, rem, base);
    let pd = point_digit(u);
    assert(0 <= pd < b);
    let idx = pd + future_offset(x, rem, base);
    vstd::arithmetic::power::lemma_pow_adds(b, 1, rem);
    vstd::arithmetic::power::lemma_pow1(b);
    vstd::arithmetic::power::lemma_pow0(b);
    assert(idx < pow(b, rem + 1)) by (nonlinear_arith)
        requires
            idx == pd + b * fd,
            0 <= pd < b,
            0 <= fd < pow(b, rem),
            pow(b, rem + 1) == b * pow(b, rem),
    ;
    assert(0 <= idx) by (nonlinear_arith)
        requires
            idx == pd + b * fd,
            0 <= pd,
            0 <= fd,
            b > 0,
    ;
    let gp = grid_point(idx, d, rem + 1);
    let rp = seq![coord(pd)] + bits_point(x, rem);
    assert forall|j: int| 0 <= j < rem + 1 implies #[trigger] gp[j] == rp[j] by {
        lemma_digit_split(fd, pd, base, 1, j as nat);
        assert(fd * b + pd == idx);
        if j == 0 {
            vstd::arithmetic::div_mod::lemma_small_mod(pd as nat, base);
            assert(digit(pd, base, 0) == pd % b);
        } else {
            assert(digit(fd, base, (j - 1) as nat) == bit(x, (j - 1) as nat) + 1);
            assert(bits_point(x, rem)[j - 1] == bit_of(x, (j - 1) as nat));
        }
    }
    assert(gp =~= rp);
}

} // verus!

verus! {

/// The terms of the message sum: chunk c, future point x.
pub open spec fn message_terms(t: Seq<Seq<int>>, s: nat, pt: EvaluationPoint) -> spec_fn(int, int) -> int {
    |c: int, x: int| product_prefix(t, c * s + x, pt, t.len())
}

/// A chunk's product at (entry u, bits of x) is the tables' product on the pair of the
/// full point.
proof fn lemma_chunk_pair(t: Seq<Seq<int>>, nc: nat, rem: nat, c: int, x: int, u: int)
    requires
        2 <= t.len() <= usize::MAX,
        0 <= u < t.len(),
        0 <= c < nc,
        0 <= x < pow2(rem),
        forall|k: int| 0 <= k < t.len() ==> (#[trigger] t[k]).len() == nc * pow2(rem + 1),
    ensures
        prod_value(chunk_tables(t, c, pow2(rem + 1)), seq![coord(point_digit(u))] + bits_point(x, rem)) == product_prefix(
            t,
            c * pow2(rem) + x,
            u_hat_domain(t.len())[u],
            t.len(),
        ),
{
    let d = t.len();
    let s = pow2(rem) as int;
    let s2 = pow2(rem + 1) as int;
    vstd::arithmetic::power2::lemma_pow2_unfold(rem + 1);
    assert(s2 == 2 * s);
    let ch = chunk_tables(t, c, pow2(rem + 1));
    let pt = seq![coord(point_digit(u))] + bits_point(x, rem);
    let bx = c * s + x;
    let up = u_hat_domain(d)[u];
    assert(c * s2 + 2 * x == 2 * bx) by (nonlinear_arith)
        requires
            s2 == 2 * s,
            bx == c * s + x,
    ;
    assert((c + 1) * s2 == c * s2 + s2) by (nonlinear_arith);
    assert(c * s2 + s2 <= nc * s2) by (nonlinear_arith)
        requires
            c < nc,
            s2 > 0,
    ;
    vstd::arithmetic::power2::lemma_pow2_pos(rem);
    assert forall|k: int| 0 <= k < d implies #[trigger] ml_value(ch[k], pt) == pair_term(t, k, bx, up) by {
        let row = ch[k];
        assert(row == t[k].subrange(c * s2, (c + 1) * s2));
        assert(pt.drop_first() =~= bits_point(x, rem));
        lemma_ml_value_bits(half_table(row, 0), rem, x);
        lemma_ml_value_bits(half_table(row, 1), rem, x);
        assert(half_table(row, 0)[x] == t[k][2 * bx]);
        assert(half_table(row, 1)[x] == t[k][2 * bx + 1]);
        if u == 0 {
            assert(pt[0] == -1);
        } else {
            assert(pt[0] == u);
            assert(up == EvaluationPoint::Value(u as u64));
        }
    }
    assert(Seq::new(d, |k: int| ml_value(ch[k], pt)) =~= Seq::new(d, |k: int| pair_term(t, k, bx, up)));
}

/// The window round's message read from the grid is the linear-time prover's message.
pub proof fn lemma_window_message(t: Seq<Seq<int>>, q: Seq<int>, nc: nat, rem: nat)
    requires
        2 <= t.len() <= usize::MAX,
        forall|k: int| 0 <= k < t.len() ==> (#[trigger] t[k]).len() == nc * pow2(rem + 1),
        q == chunk_grid(t, t.len(), rem + 1, nc),
    ensures
        grid_message(q, t.len(), rem) == round_message(t, nc * pow2(rem)),
{
    let d = t.len();
    let s = pow2(rem);
    assert forall|u: int| 0 <= u < d implies #[trigger] grid_message(q, d, rem)[u] == round_message(t, nc * s)[u] by {
        let up = u_hat_domain(d)[u];
        let f = message_terms(t, s, up);
        let col = grid_column(q, u, (d + 1) as nat, rem);
        // Each column entry is the reduced sum over the chunks.
        assert forall|x: int| 0 <= x < s implies md(#[trigger] col(x)) == md(col_sums(f, nc)(x)) by {
            lemma_message_point(u, x, d, rem);
            assert forall|c: int| 0 <= c < nc implies #[trigger] prod_value(
                chunk_tables(t, c, pow2(rem + 1)),
                seq![coord(point_digit(u))] + bits_point(x, rem),
            ) == col_of(f, x)(c) by {
                lemma_chunk_pair(t, nc, rem, c, x, u);
            }
            assert(Seq::new(nc, |c: int| prod_value(chunk_tables(t, c, pow2(rem + 1)), seq![coord(point_digit(u))] + bits_point(x, rem)))
                =~= Seq::new(nc, col_of(f, x)));
            lemma_md_idem(col_sums(f, nc)(x));
        }
        lemma_sum_congruent(s, col, col_sums(f, nc));
        lemma_sum_swap(nc, s, f);
        assert forall|c: int| 0 <= c < nc implies #[trigger] row_sums(f, s)(c) == seq_sum(
            Seq::new(s, |x: int| (|xx: int| product_prefix(t, xx, up, d))(c * s + x)),
        ) by {
            assert(Seq::new(s, row_of(f, c)) =~= Seq::new(s, |x: int| (|xx: int| product_prefix(t, xx, up, d))(c * s + x)));
        }
        assert(Seq::new(nc, row_sums(f, s)) =~= Seq::new(
            nc,
            |c: int| seq_sum(Seq::new(s, |x: int| (|xx: int| product_prefix(t, xx, up, d))(c * s + x))),
        ));
        lemma_sum_blocks(nc, s, |xx: int| product_prefix(t, xx, up, d));
        assert(Seq::new(nc * s, |xx: int| product_prefix(t, xx, up, d)) =~= Seq::new(nc * s, |x: int| product_prefix(t, x, up, t.len())));
    }
    assert(grid_message(q, d, rem) =~= round_message(t, nc * s));
}

} // verus!

verus! {

// ================================================================================
// Folding the grid with a challenge.
// ================================================================================

/// Two tables folded with r, entry by entry, reduced: a + r (b - a).
pub open spec fn lin_md(a: Seq<int>, b: Seq<int>, r: int) -> Seq<int> {
    Seq::new(a.len(), |x: int| md(a[x] + r * (b[x] - a[x])))
}

/// Reducing the end values of a line first does not change the reduced line.
proof fn lemma_md_line(e: int, o: int, x: int)
    ensures
        md(md(e) + x * (md(o) - md(e))) == md(e + x * (o - e)),
        md(md(o) - md(e)) == md(o - e),
{
    lemma_md_add(md(e), x * (md(o) - md(e)));
    lemma_md_mul(x, md(o) - md(e));
    crate::poly::lemma_md_sub(o, e);
    lemma_md_mul(x, o - e);
    lemma_md_add(e, x * (o - e));
    lemma_md_idem(e);
}

/// The multilinear function of folded tables is, modulo p, the fold of the functions.
pub proof fn lemma_ml_lin(a: Seq<int>, b: Seq<int>, r: int, pt: Seq<int>)
    requires
        a.len() == pow2(pt.len()),
        b.len() == a.len(),
    ensures
        md(ml_value(lin_md(a, b, r), pt)) == md(ml_value(a, pt) + r * (ml_value(b, pt) - ml_value(a, pt))),
    decreases pt.len(),
{
    if pt.len() == 0 {
        vstd::arithmetic::power2::lemma2_to64();
        lemma_md_idem(a[0] + r * (b[0] - a[0]));
    } else {
        let p = pt.drop_first();
        vstd::arithmetic::power2::lemma_pow2_unfold(pt.len());
        let l = lin_md(a, b, r);
        assert(half_table(l, 0) =~= lin_md(half_table(a, 0), half_table(b, 0), r));
        assert(half_table(l, 1) =~= lin_md(half_table(a, 1), half_table(b, 1), r));
        lemma_ml_lin(half_table(a, 0), half_table(b, 0), r, p);
        lemma_ml_lin(half_table(a, 1), half_table(b, 1), r, p);
        let a0 = ml_value(half_table(a, 0), p);
        let a1 = ml_value(half_table(a, 1), p);
        let b0 = ml_value(half_table(b, 0), p);
        let b1 = ml_value(half_table(b, 1), p);
        let lo = ml_value(half_table(l, 0), p);
        let hi = ml_value(half_table(l, 1), p);
        let x = pt[0];
        // md(lo) == md(a0 + r (b0 - a0)), md(hi) == md(a1 + r (b1 - a1))
        lemma_md_line(lo, hi, x);
        lemma_md_line(a0 + r * (b0 - a0), a1 + r * (b1 - a1), x);
        if x == -1 {
            assert((a1 + r * (b1 - a1)) - (a0 + r * (b0 - a0)) == (a1 - a0) + r * ((b1 - b0) - (a1 - a0))) by (nonlinear_arith);
        } else {
            assert((a0 + r * (b0 - a0)) + x * ((a1 + r * (b1 - a1)) - (a0 + r * (b0 - a0))) == (a0 + x * (a1 - a0)) + r * ((b0
                + x * (b1 - b0)) - (a0 + x * (a1 - a0)))) by (nonlinear_arith);
        }
    }
}

/// The sum of the polynomials cs(0), ..., cs(n-1).
pub open spec fn sum_polys(cs: spec_fn(int) -> Seq<int>, n: nat) -> Seq<int>
    decreases n,
{
    if n == 0 {
        Seq::empty()
    } else {
        crate::poly::padd(sum_polys(cs, (n - 1) as nat), cs(n - 1))
    }
}

/// The values at x of the polynomials cs(c).
pub open spec fn poly_vals(cs: spec_fn(int) -> Seq<int>, x: int) -> spec_fn(int) -> int {
    |c: int| crate::poly::peval(cs(c), x)
}

/// The coefficients of X^d of the polynomials cs(c).
pub open spec fn poly_leads(cs: spec_fn(int) -> Seq<int>, d: nat) -> spec_fn(int) -> int {
    |c: int| crate::poly::coef(cs(c), d as int)
}

/// A sum of polynomials is evaluated and read term by term.
proof fn lemma_sum_polys(cs: spec_fn(int) -> Seq<int>, n: nat, x: int, d: nat)
    requires
        forall|c: int| 0 <= c < n ==> (#[trigger] cs(c)).len() <= d + 1,
    ensures
        sum_polys(cs, n).len() <= d + 1,
        crate::poly::peval(sum_polys(cs, n), x) == seq_sum(Seq::new(n, poly_vals(cs, x))),
        crate::poly::coef(sum_polys(cs, n), d as int) == seq_sum(Seq::new(n, poly_leads(cs, d))),
    decreases n,
{
    if n == 0 {
        crate::poly::lemma_peval_const(0, x);
        assert(Seq::<int>::empty() =~= Seq::new(0, |i: int| 0int));
        assert(Seq::new(0, poly_vals(cs, x)) =~= Seq::<int>::empty());
        assert(Seq::new(0, poly_leads(cs, d)) =~= Seq::<int>::empty());
    } else {
        let n1 = (n - 1) as nat;
        lemma_sum_polys(cs, n1, x, d);
        crate::poly::lemma_peval_padd(sum_polys(cs, n1), cs(n1 as int), x);
        lemma_seq_sum_new_step(n1, poly_vals(cs, x));
        lemma_seq_sum_new_step(n1, poly_leads(cs, d));
    }
}

} // verus!

verus! {

/// The tables' functions on chunk c at (b, pt), b the value of the chunk's first
/// variable.
pub open spec fn cell_side(t: Seq<Seq<int>>, c: int, rem: nat, pt: Seq<int>, b: int) -> Seq<int> {
    Seq::new(t.len(), |k: int| ml_value(half_table(chunk_tables(t, c, pow2(rem + 1))[k], b), pt))
}

/// The lines of chunk c along its first variable at pt.
pub open spec fn cell_lines(t: Seq<Seq<int>>, c: int, rem: nat, pt: Seq<int>) -> Seq<Seq<int>> {
    Seq::new(t.len(), |k: int| seq![cell_side(t, c, rem, pt, 0)[k], cell_side(t, c, rem, pt, 1)[k]])
}

/// The product of the lines of chunk c, as a polynomial in the first variable.
pub open spec fn cell_polys(t: Seq<Seq<int>>, rem: nat, pt: Seq<int>) -> spec_fn(int) -> Seq<int> {
    |c: int| crate::completeness::pair_poly(cell_lines(t, c, rem, pt), 0, t.len())
}

/// A chunk's product at (x, pt) is its cell polynomial at x, or its leading
/// coefficient at infinity.
proof fn lemma_chunk_cell(t: Seq<Seq<int>>, c: int, rem: nat, pt: Seq<int>, x: int)
    ensures
        crate::completeness::pair_poly(cell_lines(t, c, rem, pt), 0, t.len()).len() == t.len() + 1,
        prod_value(chunk_tables(t, c, pow2(rem + 1)), seq![x] + pt) == (if x == -1 {
            crate::poly::coef(cell_polys(t, rem, pt)(c), t.len() as int)
        } else {
            crate::poly::peval(cell_polys(t, rem, pt)(c), x)
        }),
{
    let d = t.len();
    let lo = cell_side(t, c, rem, pt, 0);
    let hi = cell_side(t, c, rem, pt, 1);
    let ch = chunk_tables(t, c, pow2(rem + 1));
    crate::grid_values::lemma_prod_lines(lo, hi, d, x);
    assert(Seq::new(d, |s: int| seq![lo[s], hi[s]]) =~= cell_lines(t, c, rem, pt));
    assert((seq![x] + pt).drop_first() =~= pt);
    assert((seq![x] + pt)[0] == x);
    if x == -1 {
        assert(Seq::new(d, |k: int| ml_value(ch[k], seq![x] + pt)) =~= Seq::new(d, |s: int| hi[s] - lo[s]));
    } else {
        assert(Seq::new(d, |k: int| ml_value(ch[k], seq![x] + pt)) =~= Seq::new(d, |s: int| lo[s] + x * (hi[s] - lo[s])));
    }
}

/// The grid point of f b + tt, one variable more: the digit tt, then the point of f.
proof fn lemma_grid_point_cons(f: int, tt: int, d: nat, rem: nat)
    requires
        d >= 1,
        0 <= f,
        0 <= tt <= d,
    ensures
        grid_point(f * (d + 1) + tt, d, rem + 1) == seq![coord(tt)] + grid_point(f, d, rem),
{
    let base = (d + 1) as nat;
    let b = base as int;
    vstd::arithmetic::power::lemma_pow1(b);
    let gp = grid_point(f * b + tt, d, rem + 1);
    let pt = grid_point(f, d, rem);
    assert forall|j: int| 0 <= j < rem + 1 implies #[trigger] gp[j] == (seq![coord(tt)] + pt)[j] by {
        lemma_digit_split(f, tt, base, 1, j as nat);
        if j == 0 {
            vstd::arithmetic::div_mod::lemma_small_mod(tt as nat, base);
            vstd::arithmetic::power::lemma_pow0(b);
        }
    }
    assert(gp =~= seq![coord(tt)] + pt);
}

/// Folding the grid with the challenge r gives the grid of the tables folded with r.
pub proof fn lemma_window_fold(t: Seq<Seq<int>>, q: Seq<int>, nc: nat, rem: nat, r: int)
    requires
        crate::poly::fermat_holds(),
        2 <= t.len() <= usize::MAX,
        forall|k: int| 0 <= k < t.len() ==> (#[trigger] t[k]).len() == nc * pow2(rem + 1),
        q == chunk_grid(t, t.len(), rem + 1, nc),
    ensures
        crate::protocol::fold_grid(q, r, t.len(), rem) == chunk_grid(
            crate::sumcheck_model::fold_tables(t, r, nc * pow2(rem)),
            t.len(),
            rem,
            nc,
        ),
{
    let d = t.len();
    let base = (d + 1) as nat;
    let b = base as int;
    let s = pow2(rem) as int;
    let s2 = pow2(rem + 1) as int;
    vstd::arithmetic::power2::lemma_pow2_unfold(rem + 1);
    vstd::arithmetic::power2::lemma_pow2_pos(rem);
    let half = (nc * s) as nat;
    let tf = crate::sumcheck_model::fold_tables(t, r, half);
    let dinv = crate::protocol::dinv_values(d);
    let vp = crate::poly::vanishing_prod(r, d);
    crate::bigint_field::lemma_modulus_val();
    assert(d < crate::bigint_field::modulus());
    vstd::arithmetic::power::lemma_pow_adds(b, 1, rem);
    vstd::arithmetic::power::lemma_pow1(b);
    vstd::arithmetic::power::lemma_pow_positive(b, rem);
    let lhs = crate::protocol::fold_grid(q, r, d, rem);
    let rhs = chunk_grid(tf, d, rem, nc);
    assert forall|f: int| 0 <= f < pow(b, rem) implies #[trigger] lhs[f] == rhs[f] by {
        let pt = grid_point(f, d, rem);
        let cs = cell_polys(t, rem, pt);
        let cc = sum_polys(cs, nc);
        assert forall|c: int| 0 <= c < nc implies (#[trigger] cs(c)).len() <= d + 1 by {
            lemma_chunk_cell(t, c, rem, pt, 0);
        }
        // The cell's entries: the leading coefficient, then the values at 0, ..., d-1.
        assert forall|tt: int| 0 <= tt <= d implies #[trigger] q[f * b + tt] == md(
            if tt == 0 {
                crate::poly::coef(cc, d as int)
            } else {
                crate::poly::peval(cc, tt - 1)
            },
        ) by {
            lemma_digit_split(f, tt, base, 1, 0);
            assert(f * b + tt < pow(b, rem + 1)) by (nonlinear_arith)
                requires
                    0 <= f < pow(b, rem),
                    0 <= tt < b,
                    pow(b, rem + 1) == b * pow(b, rem),
            ;
            assert(f * b + tt >= 0) by (nonlinear_arith)
                requires
                    0 <= f,
                    0 <= tt,
                    b > 0,
            ;
            let gp = grid_point(f * b + tt, d, rem + 1);
            lemma_grid_point_cons(f, tt, d, rem);
            let x = coord(tt);
            lemma_sum_polys(cs, nc, x, d);
            assert forall|c: int| 0 <= c < nc implies #[trigger] prod_value(chunk_tables(t, c, pow2(rem + 1)), seq![x] + pt) == (if tt
                == 0 {
                poly_leads(cs, d)(c)
            } else {
                poly_vals(cs, x)(c)
            }) by {
                lemma_chunk_cell(t, c, rem, pt, x);
            }
            if tt == 0 {
                assert(Seq::new(nc, |c: int| prod_value(chunk_tables(t, c, pow2(rem + 1)), gp)) =~= Seq::new(nc, poly_leads(cs, d)));
            } else {
                assert(Seq::new(nc, |c: int| prod_value(chunk_tables(t, c, pow2(rem + 1)), gp)) =~= Seq::new(nc, poly_vals(cs, x)));
            }
        }
        lemma_sum_polys(cs, nc, r, d);
        // The Lagrange combination at r, with the inverses of the denominators.
        let lt = crate::engine::cell_terms(q, f * b, d, r, dinv);
        let rt = |i: int| crate::poly::peval(cc, i) * crate::poly::lagrange_coeff(r, i, d);
        assert forall|i: int| 0 <= i < d implies md(#[trigger] lt(i)) == md(rt(i)) by {
            crate::poly::lemma_basis_den_nonzero(i, d);
            crate::field_math::lemma_md_range(crate::poly::basis_den(i, d));
            crate::poly::lemma_field_inv_fermat(md(crate::poly::basis_den(i, d)) as nat);
            assert(dinv[i] == crate::engine::denominator_inverse(i, d));
            assert(q[f * b + (i + 1)] == md(crate::poly::peval(cc, i)));
            assert(f * b + i + 1 == f * b + (i + 1));
            lemma_md_mul(q[f * b + i + 1], crate::poly::basis_num(r, i, d) * dinv[i]);
            lemma_md_mul(crate::poly::peval(cc, i), crate::poly::basis_num(r, i, d) * dinv[i]);
        }
        lemma_sum_congruent(d, lt, rt);
        assert(Seq::new(d, rt) =~= Seq::new(d, |i: int| crate::poly::peval(cc, i) * crate::poly::lagrange_coeff(r, i, d)));
        crate::poly::lemma_lagrange_infinity(cc, d, r);
        assert(q[f * b + 0] == md(crate::poly::coef(cc, d as int)));
        lemma_md_mul(q[f * b], vp);
        lemma_md_mul(crate::poly::coef(cc, d as int), vp);
        lemma_md_add(q[f * b] * vp, seq_sum(Seq::new(d, lt)));
        lemma_md_add(crate::poly::coef(cc, d as int) * vp, seq_sum(Seq::new(d, rt)));
        assert(lhs[f] == md(q[f * b] * vp + seq_sum(Seq::new(d, lt))));
        // The folded tables' grid.
        let g1 = |c: int| prod_value(chunk_tables(tf, c, pow2(rem)), pt);
        assert forall|c: int| 0 <= c < nc implies md(#[trigger] g1(c)) == md(poly_vals(cs, r)(c)) by {
            let lo = cell_side(t, c, rem, pt, 0);
            let hi = cell_side(t, c, rem, pt, 1);
            let ch = chunk_tables(t, c, pow2(rem + 1));
            let chf = chunk_tables(tf, c, pow2(rem));
            assert((c + 1) * s2 <= nc * s2) by (nonlinear_arith)
                requires
                    c < nc,
                    s2 > 0,
            ;
            assert((c + 1) * s <= nc * s) by (nonlinear_arith)
                requires
                    c < nc,
                    s > 0,
            ;
            assert(c * s2 == 2 * (c * s)) by (nonlinear_arith)
                requires
                    s2 == 2 * s,
            ;
            assert(0 <= c * s) by (nonlinear_arith)
                requires
                    0 <= c,
                    s > 0,
            ;
            assert((c + 1) * s2 == c * s2 + s2 && (c + 1) * s == c * s + s) by (nonlinear_arith);
            assert forall|k: int| 0 <= k < d implies md(#[trigger] ml_value(chf[k], pt)) == md(lo[k] + r * (hi[k] - lo[k])) by {
                let h0 = half_table(ch[k], 0);
                let h1 = half_table(ch[k], 1);
                assert(tf[k] == crate::sumcheck_model::fold_prefix(t[k], r, half));
                assert(tf[k].len() == half);
                assert(chf[k] == tf[k].subrange(c * s, (c + 1) * s));
                assert(t[k].len() == nc * s2);
                assert(ch[k] == t[k].subrange(c * s2, (c + 1) * s2));
                assert(ch[k].len() == s2);
                assert(h0.len() == s);
                assert forall|x: int| 0 <= x < s implies #[trigger] chf[k][x] == lin_md(h0, h1, r)[x] by {
                    assert(0 <= 2 * x + 1 < s2);
                    assert(ch[k][2 * x] == t[k][c * s2 + 2 * x]);
                    assert(ch[k][2 * x + 1] == t[k][c * s2 + 2 * x + 1]);
                    assert(chf[k][x] == tf[k][c * s + x]);
                    assert(h0[x] == t[k][c * s2 + 2 * x]);
                    assert(h1[x] == t[k][c * s2 + 2 * x + 1]);
                    assert(2 * (c * s + x) == c * s2 + 2 * x);
                }
                assert(chf[k] =~= lin_md(h0, h1, r));
                lemma_ml_lin(h0, h1, r, pt);
            }
            crate::completeness::lemma_prod_congruent(d, |k: int| ml_value(chf[k], pt), |k: int| lo[k] + r * (hi[k] - lo[k]));
            crate::grid_values::lemma_prod_lines(lo, hi, d, r);
            assert(Seq::new(d, |s: int| seq![lo[s], hi[s]]) =~= cell_lines(t, c, rem, pt));
        }
        lemma_sum_congruent(nc, g1, poly_vals(cs, r));
        assert(Seq::new(nc, g1) =~= Seq::new(nc, |c: int| prod_value(chunk_tables(tf, c, pow2(rem)), grid_point(f, d, rem))));
    }
    assert(lhs =~= rhs);
}

} // verus!

verus! {

// ================================================================================
// The offline grid, and the tables after the window's folds.
// ================================================================================

/// The grid accumulated offline is the grid of the tables: entry by entry, the reduced
/// sum over the chunks of the products of the chunks' multilinear functions.
pub proof fn lemma_offline_grid(tv: Seq<Seq<int>>, w: nat, nc: nat)
    requires
        crate::poly::fermat_holds(),
        1 <= tv.len() <= usize::MAX,
        forall|k: int| 0 <= k < tv.len() ==> (#[trigger] tv[k]).len() == nc * pow2(w),
    ensures
        crate::protocol::offline_grid(tv, tv.len(), w, nc) == chunk_grid(tv, tv.len(), w, nc),
{
    let d = tv.len();
    let s = pow2(w) as int;
    vstd::arithmetic::power2::lemma_pow2_pos(w);
    let lhs = crate::protocol::offline_grid(tv, d, w, nc);
    let rhs = chunk_grid(tv, d, w, nc);
    assert forall|i: int| 0 <= i < pow((d + 1) as int, w) implies #[trigger] lhs[i] == rhs[i] by {
        let f = crate::protocol::chunk_grid_entries(tv, d, w, i);
        let g = |c: int| prod_value(chunk_tables(tv, c, pow2(w)), grid_point(i, d, w));
        assert forall|c: int| 0 <= c < nc implies md(#[trigger] f(c)) == md(g(c)) by {
            let ch = chunk_tables(tv, c, pow2(w));
            assert((c + 1) * s <= nc * s && 0 <= c * s && (c + 1) * s == c * s + s) by (nonlinear_arith)
                requires
                    0 <= c < nc,
                    s > 0,
            ;
            assert forall|k: int| 0 <= k < d implies (#[trigger] ch[k]).len() == pow2(w) by {
                assert(tv[k].len() == nc * s);
            }
            lemma_product_grid_values(ch, d, w);
        }
        lemma_sum_congruent(nc, f, g);
        lemma_md_idem(seq_sum(Seq::new(nc, g)));
        assert(Seq::new(nc, g) =~= Seq::new(nc, |c: int| prod_value(chunk_tables(tv, c, pow2(w)), grid_point(i, d, w))));
    }
    vstd::arithmetic::power::lemma_pow_positive((d + 1) as int, w);
    assert(lhs =~= rhs);
}

/// Folding a table of nc chunks of 2^|rs| entries with every challenge of rs leaves, at
/// entry e, the multilinear extension of chunk e at rs.
pub proof fn lemma_fold_chunks(t: Seq<int>, rs: Seq<int>, nc: nat)
    requires
        t.len() == nc * pow2(rs.len()),
    ensures
        crate::sumcheck_model::fold_all(t, rs) == Seq::new(
            nc,
            |e: int| crate::sumcheck_model::mle_eval(t.subrange(e * pow2(rs.len()), (e + 1) * pow2(rs.len())), rs),
        ),
    decreases rs.len(),
{
    let m = rs.len();
    let s = pow2(m) as int;
    vstd::arithmetic::power2::lemma_pow2_pos(m);
    let rhs = Seq::new(nc, |e: int| crate::sumcheck_model::mle_eval(t.subrange(e * pow2(m), (e + 1) * pow2(m)), rs));
    if m == 0 {
        assert(pow2(0) == 1) by {
            vstd::arithmetic::power2::lemma2_to64();
        }
        assert(t.len() == nc) by (nonlinear_arith)
            requires
                t.len() == nc * pow2(m),
                pow2(m) == 1,
        ;
        assert forall|e: int| 0 <= e < nc implies #[trigger] rhs[e] == t[e] by {
            let sub = t.subrange(e * pow2(m), (e + 1) * pow2(m));
            assert(e * pow2(m) == e && (e + 1) * pow2(m) == e + 1) by (nonlinear_arith)
                requires
                    pow2(m) == 1,
            ;
            assert(sub[0] == t[e]);
            assert(crate::sumcheck_model::fold_all(sub, rs) == sub);
        }
        assert(crate::sumcheck_model::fold_all(t, rs) =~= rhs);
    } else {
        vstd::arithmetic::power2::lemma_pow2_unfold(m);
        let h = pow2((m - 1) as nat) as int;
        let r = rs[0];
        let rest = rs.drop_first();
        let t1 = crate::sumcheck_model::fold_once(t, r);
        assert(nc * s == 2 * (nc * h)) by (nonlinear_arith)
            requires
                s == 2 * h,
        ;
        assert(t1.len() == nc * h);
        lemma_fold_chunks(t1, rest, nc);
        assert forall|e: int| 0 <= e < nc implies #[trigger] crate::sumcheck_model::fold_all(t, rs)[e] == rhs[e] by {
            let ch = t.subrange(e * s, (e + 1) * s);
            let ch1 = t1.subrange(e * h, (e + 1) * h);
            assert((e + 1) * s <= nc * s && 0 <= e * s && (e + 1) * s == e * s + s) by (nonlinear_arith)
                requires
                    0 <= e < nc,
                    s > 0,
            ;
            assert((e + 1) * h <= nc * h && 0 <= e * h && (e + 1) * h == e * h + h) by (nonlinear_arith)
                requires
                    0 <= e < nc,
                    h > 0,
            ;
            assert(e * s == 2 * (e * h)) by (nonlinear_arith)
                requires
                    s == 2 * h,
            ;
            assert(ch.len() == s);
            assert forall|x: int| 0 <= x < h implies #[trigger] ch1[x] == crate::sumcheck_model::fold_once(ch, r)[x] by {
                assert(ch1[x] == t1[e * h + x]);
                assert(2 * (e * h + x) == e * s + 2 * x);
                assert(ch[2 * x] == t[e * s + 2 * x]);
                assert(ch[2 * x + 1] == t[e * s + 2 * x + 1]);
            }
            assert(ch1 =~= crate::sumcheck_model::fold_once(ch, r));
        }
        assert(crate::sumcheck_model::fold_all(t, rs) =~= rhs);
    }
}

/// Every table folded with every challenge of rs.
pub open spec fn fold_tables_all(tv: Seq<Seq<int>>, rs: Seq<int>) -> Seq<Seq<int>> {
    Seq::new(tv.len(), |k: int| crate::sumcheck_model::fold_all(tv[k], rs))
}

/// The window's rounds answered from the grid leave the verifier where the linear-time
/// prover's rounds leave it: the claim after all rounds is the claim after the rounds
/// past the window, started from the window's claim on the tables folded with the
/// window's challenges.
pub proof fn lemma_window_rounds(t: Seq<Seq<int>>, q: Seq<int>, c: int, rs: Seq<int>, m: nat, nc: nat)
    requires
        crate::poly::fermat_holds(),
        2 <= t.len() <= usize::MAX,
        m <= rs.len(),
        nc == pow2((rs.len() - m) as nat),
        forall|k: int| 0 <= k < t.len() ==> (#[trigger] t[k]).len() == pow2(rs.len()),
        m > 0 ==> q == chunk_grid(t, t.len(), m, nc),
    ensures
        crate::sumcheck_model::claim_after_inv(t, c, rs) == crate::sumcheck_model::claim_after_inv(
            fold_tables_all(t, rs.take(m as int)),
            crate::protocol::window_claim(q, c, rs, t.len(), m),
            rs.skip(m as int),
        ),
    decreases m,
{
    let d = t.len();
    let n = rs.len();
    if m == 0 {
        assert(rs.take(0) =~= Seq::<int>::empty());
        assert(fold_tables_all(t, rs.take(0)) =~= t);
        assert(rs.skip(0) =~= rs);
    } else {
        let rem = (m - 1) as nat;
        let half = pow2((n - 1) as nat);
        vstd::arithmetic::power2::lemma_pow2_adds((n - m) as nat, m);
        vstd::arithmetic::power2::lemma_pow2_adds((n - m) as nat, rem);
        vstd::arithmetic::power2::lemma_pow2_unfold(n);
        assert(nc * pow2(rem + 1) == pow2(n));
        assert(nc * pow2(rem) == half);
        lemma_window_message(t, q, nc, rem);
        let msg = round_message(t, half);
        let c1 = crate::sumcheck_model::interpolate_inv(msg, md(c - msg[1]), rs[0], d);
        let t1 = crate::sumcheck_model::fold_tables(t, rs[0], half);
        let rest = rs.drop_first();
        let q1 = if rem > 0 {
            crate::protocol::fold_grid(q, rs[0], d, rem)
        } else {
            q
        };
        if rem > 0 {
            lemma_window_fold(t, q, nc, rem, rs[0]);
        }
        assert forall|k: int| 0 <= k < d implies (#[trigger] t1[k]).len() == pow2(rest.len()) by {
            assert(t1[k] == crate::sumcheck_model::fold_prefix(t[k], rs[0], half));
        }
        lemma_window_rounds(t1, q1, c1, rest, rem, nc);
        assert(crate::protocol::window_claim(q, c, rs, d, m) == crate::protocol::window_claim(q1, c1, rest, d, rem));
        assert(crate::sumcheck_model::claim_after_inv(t, c, rs) == crate::sumcheck_model::claim_after_inv(t1, c1, rest));
        assert forall|k: int| 0 <= k < d implies #[trigger] fold_tables_all(t1, rest.take(rem as int))[k] == fold_tables_all(
            t,
            rs.take(m as int),
        )[k] by {
            let tk = rs.take(m as int);
            assert(tk.drop_first() =~= rest.take(rem as int));
            assert(tk[0] == rs[0]);
            assert(t[k].len() / 2 == half);
            assert(crate::sumcheck_model::fold_once(t[k], rs[0]) == t1[k]);
        }
        assert(fold_tables_all(t1, rest.take(rem as int)) =~= fold_tables_all(t, rs.take(m as int)));
        assert(rest.skip(rem as int) =~= rs.skip(m as int));
    }
}

/// Completeness of the small-value protocol: under Fermat, with at least two tables of
/// 2^l entries and an honest claim (their sum), the claim that the verifier holds after
/// the window's rounds read from the offline grid and the linear-time rounds on the
/// folded tables is the oracle's value, whatever the challenges and the window size.
pub proof fn lemma_eval_product_complete(tv: Seq<Seq<int>>, rs: Seq<int>, w: nat)
    requires
        crate::poly::fermat_holds(),
        2 <= tv.len() <= usize::MAX,
        w <= rs.len(),
        forall|k: int| 0 <= k < tv.len() ==> (#[trigger] tv[k]).len() == pow2(rs.len()),
    ensures
        crate::sumcheck_model::claim_after_inv(
            crate::protocol::folded_window(tv, rs, w, pow2((rs.len() - w) as nat)),
            crate::protocol::window_claim(
                crate::protocol::offline_grid(tv, tv.len(), w, pow2((rs.len() - w) as nat)),
                md(crate::completeness::table_sum(tv, pow2(rs.len()))),
                rs,
                tv.len(),
                w,
            ),
            rs.skip(w as int),
        ) == crate::sumcheck_model::oracle_value(tv, rs),
{
    let d = tv.len();
    let l = rs.len();
    let nc = pow2((l - w) as nat);
    vstd::arithmetic::power2::lemma_pow2_adds((l - w) as nat, w);
    assert(nc * pow2(w) == pow2(l));
    lemma_offline_grid(tv, w, nc);
    let c = md(crate::completeness::table_sum(tv, pow2(l)));
    let q = chunk_grid(tv, d, w, nc);
    lemma_window_rounds(tv, q, c, rs, w, nc);
    let rw = rs.take(w as int);
    assert forall|k: int| 0 <= k < d implies #[trigger] fold_tables_all(tv, rw)[k] == crate::protocol::folded_window(
        tv,
        rs,
        w,
        nc,
    )[k] by {
        lemma_fold_chunks(tv[k], rw, nc);
    }
    assert(fold_tables_all(tv, rw) =~= crate::protocol::folded_window(tv, rs, w, nc));
    crate::completeness::lemma_claim_after_inv(tv, c, rs);
    crate::completeness::lemma_honest_claim_accepted(tv, rs);
}

/// For every claim and all challenges, the small-value protocol (window rounds answered
/// from the offline grid, then the remaining rounds on the folded tables) accepts
/// exactly when the linear-time protocol accepts.
pub proof fn lemma_window_verdict(tv: Seq<Seq<int>>, c: int, rs: Seq<int>, w: nat)
    requires
        crate::poly::fermat_holds(),
        2 <= tv.len() <= usize::MAX,
        w <= rs.len(),
        forall|k: int| 0 <= k < tv.len() ==> (#[trigger] tv[k]).len() == pow2(rs.len()),
    ensures
        crate::protocol::window_verdict(
            tv,
            crate::protocol::offline_grid(tv, tv.len(), w, pow2((rs.len() - w) as nat)),
            c,
            rs,
            w,
            pow2((rs.len() - w) as nat),
        ) == crate::sumcheck_model::verdict_inv(tv, c, rs),
{
    let d = tv.len();
    let l = rs.len();
    let nc = pow2((l - w) as nat);
    vstd::arithmetic::power2::lemma_pow2_adds((l - w) as nat, w);
    assert(nc * pow2(w) == pow2(l));
    lemma_offline_grid(tv, w, nc);
    let q = chunk_grid(tv, d, w, nc);
    lemma_window_rounds(tv, q, c, rs, w, nc);
    let rw = rs.take(w as int);
    assert forall|k: int| 0 <= k < d implies #[trigger] fold_tables_all(tv, rw)[k] == crate::protocol::folded_window(
        tv,
        rs,
        w,
        nc,
    )[k] by {
        lemma_fold_chunks(tv[k], rw, nc);
    }
    assert(fold_tables_all(tv, rw) =~= crate::protocol::folded_window(tv, rs, w, nc));
}

} // verus!
