//! Univariate polynomials with integer coefficients (lowest degree first), read
//! modulo p: evaluation, sums, products with linear factors, division by (X - x0),
//! the vanishing of a polynomial with more roots than its degree, and Lagrange
//! interpolation on {0, ..., d-1} completed by the point at infinity.
use crate::bigint_field::{fe_inv, fe_mul, modulus, modulus_int};
use crate::field_math::{lemma_md_add, lemma_md_mul, lemma_md_range, lemma_seq_prod_new_step, lemma_seq_sum_new_step, md, seq_prod, seq_sum};
use vstd::arithmetic::div_mod::{lemma_mod_twice, lemma_small_mod, lemma_sub_mod_noop};
use vstd::arithmetic::mul::{lemma_mul_basics, lemma_mul_is_associative, lemma_mul_is_commutative, lemma_mul_is_distributive_add, lemma_mul_is_distributive_sub};
use vstd::prelude::*;

verus! {

// ================================================================================
// The field premise.
// ================================================================================

/// Fermat's little theorem for the modulus: a^(p-2) inverts every nonzero residue.
/// It holds because p is prime, which is not proved here; the statements that need
/// the field structure of the integers modulo p take it as a premise.
pub open spec fn fermat_holds() -> bool {
    forall|a: nat| 0 < a < modulus() ==> #[trigger] fe_mul(a, fe_inv(a)) == 1
}

/// In the field, a product vanishes only when a factor does.
pub proof fn lemma_cancel(a: int, b: int)
    requires
        fermat_holds(),
        md(a * b) == 0,
        md(a) != 0,
    ensures
        md(b) == 0,
{
    lemma_md_range(a);
    let ma: int = md(a);
    let ia: int = fe_inv(ma as nat) as int;
    assert(fe_mul(ma as nat, fe_inv(ma as nat)) == 1);
    assert(md(ma * ia) == 1);
    // b = b (ma ia) = (ma b) ia = (a b) ia = 0, all modulo p.
    lemma_md_mul(b, ma * ia);
    lemma_mul_basics(b);
    assert(md(b) == md(b * (ma * ia)));
    assert(b * (ma * ia) == (ma * b) * ia) by (nonlinear_arith);
    lemma_md_mul(ma * b, ia);
    lemma_md_mul(a, b);
    assert(md(ma * b) == md(a * b));
    lemma_mul_basics(ia);
    assert(md(md(ma * b) * ia) == md(0int));
}

/// A nonzero residue times a nonzero residue is nonzero.
pub proof fn lemma_nonzero_product(a: int, b: int)
    requires
        fermat_holds(),
        md(a) != 0,
        md(b) != 0,
    ensures
        md(a * b) != 0,
{
    if md(a * b) == 0 {
        lemma_cancel(a, b);
    }
}

/// A difference of two distinct canonical values is nonzero modulo p.
pub proof fn lemma_distinct_diff(x: int, y: int)
    requires
        0 <= x < modulus(),
        0 <= y < modulus(),
        x != y,
    ensures
        md(x - y) != 0,
{
    if x > y {
        lemma_small_mod((x - y) as nat, modulus());
    } else {
        lemma_small_mod((y - x) as nat, modulus());
        lemma_sub_mod_noop(0, y - x, modulus_int());
        lemma_small_mod(0, modulus());
        assert(md(0 - (y - x)) == md(0 - md(y - x)));
        assert(md(y - x) == y - x);
        assert(0 - (y - x) + modulus_int() == modulus_int() - (y - x));
        vstd::arithmetic::div_mod::lemma_mod_add_multiples_vanish(0 - (y - x), modulus_int());
        lemma_small_mod((modulus_int() - (y - x)) as nat, modulus());
    }
}

/// Reduction modulo p respects subtraction.
pub proof fn lemma_md_sub(x: int, y: int)
    ensures
        md(md(x) - md(y)) == md(x - y),
{
    lemma_sub_mod_noop(x, y, modulus_int());
}

// ================================================================================
// Coefficient sequences.
// ================================================================================

/// The coefficient of X^i, zero outside the sequence.
pub open spec fn coef(c: Seq<int>, i: int) -> int {
    if 0 <= i < c.len() {
        c[i]
    } else {
        0
    }
}

/// The value of the polynomial at x, by Horner's rule.
pub open spec fn peval(c: Seq<int>, x: int) -> int
    decreases c.len(),
{
    if c.len() == 0 {
        0
    } else {
        c[0] + x * peval(c.drop_first(), x)
    }
}

/// The sum of two polynomials.
pub open spec fn padd(u: Seq<int>, v: Seq<int>) -> Seq<int> {
    Seq::new(if u.len() >= v.len() { u.len() } else { v.len() }, |i: int| coef(u, i) + coef(v, i))
}

/// A polynomial times a constant.
pub open spec fn pscale(u: Seq<int>, s: int) -> Seq<int> {
    Seq::new(u.len(), |i: int| s * u[i])
}

/// The product (a + b X) c(X).
pub open spec fn pmul_lin(c: Seq<int>, a: int, b: int) -> Seq<int> {
    Seq::new(c.len() + 1, |j: int| a * coef(c, j) + b * coef(c, j - 1))
}

/// The quotient of c(X) - c(x0) by (X - x0), by synthetic division.
pub open spec fn div_lin(c: Seq<int>, x0: int) -> Seq<int>
    decreases c.len(),
{
    if c.len() <= 1 {
        Seq::empty()
    } else {
        seq![peval(c.drop_first(), x0)] + div_lin(c.drop_first(), x0)
    }
}

pub proof fn lemma_peval_const(k: int, x: int)
    ensures
        peval(seq![k], x) == k,
{
    let e = Seq::<int>::empty();
    assert(seq![k].drop_first() =~= e);
    assert(peval(e, x) == 0);
    lemma_mul_basics(x);
    assert(peval(seq![k], x) == k + x * peval(e, x));
}

pub proof fn lemma_peval_padd(u: Seq<int>, v: Seq<int>, x: int)
    ensures
        peval(padd(u, v), x) == peval(u, x) + peval(v, x),
    decreases u.len() + v.len(),
{
    if u.len() == 0 {
        assert(padd(u, v) =~= v);
    } else if v.len() == 0 {
        assert(padd(u, v) =~= u);
    } else {
        let s = padd(u, v);
        assert(s.drop_first() =~= padd(u.drop_first(), v.drop_first()));
        lemma_peval_padd(u.drop_first(), v.drop_first(), x);
        lemma_mul_is_distributive_add(x, peval(u.drop_first(), x), peval(v.drop_first(), x));
    }
}

pub proof fn lemma_peval_pscale(u: Seq<int>, s: int, x: int)
    ensures
        peval(pscale(u, s), x) == s * peval(u, x),
    decreases u.len(),
{
    if u.len() == 0 {
        lemma_mul_basics(s);
    } else {
        assert(pscale(u, s).drop_first() =~= pscale(u.drop_first(), s));
        lemma_peval_pscale(u.drop_first(), s, x);
        let t = peval(u.drop_first(), x);
        assert(s * u[0] + x * (s * t) == s * (u[0] + x * t)) by (nonlinear_arith);
    }
}

pub proof fn lemma_peval_mul_lin(c: Seq<int>, a: int, b: int, x: int)
    ensures
        peval(pmul_lin(c, a, b), x) == (a + b * x) * peval(c, x),
    decreases c.len(),
{
    let r = pmul_lin(c, a, b);
    if c.len() == 0 {
        lemma_mul_basics(a);
        lemma_mul_basics(b);
        assert(r =~= seq![0int]);
        lemma_peval_const(0, x);
        lemma_mul_basics(a + b * x);
    } else {
        let c0 = c[0];
        let ct = c.drop_first();
        assert(r.drop_first() =~= padd(pmul_lin(ct, a, b), seq![b * c0]));
        lemma_peval_mul_lin(ct, a, b, x);
        lemma_peval_padd(pmul_lin(ct, a, b), seq![b * c0], x);
        lemma_peval_const(b * c0, x);
        let t = peval(ct, x);
        assert(r[0] == a * c0 + b * 0) by {
            assert(coef(c, -1) == 0);
        }
        lemma_mul_basics(b);
        assert(a * c0 + x * ((a + b * x) * t + b * c0) == (a + b * x) * (c0 + x * t)) by (nonlinear_arith);
    }
}

pub proof fn lemma_div_lin(c: Seq<int>, x0: int, x: int)
    requires
        c.len() >= 1,
    ensures
        div_lin(c, x0).len() == c.len() - 1,
        peval(c, x) == peval(c, x0) + (x - x0) * peval(div_lin(c, x0), x),
    decreases c.len(),
{
    let q = div_lin(c, x0);
    if c.len() == 1 {
        let e = Seq::<int>::empty();
        assert(c.drop_first() =~= e);
        assert(peval(e, x) == 0);
        assert(peval(e, x0) == 0);
        assert(q == e);
        lemma_mul_basics(x);
        lemma_mul_basics(x0);
        lemma_mul_basics(x - x0);
        assert(peval(c, x) == c[0] + x * peval(e, x));
        assert(peval(c, x0) == c[0] + x0 * peval(e, x0));
    } else {
        let ct = c.drop_first();
        lemma_div_lin(ct, x0, x);
        let qt = div_lin(ct, x0);
        assert(q.drop_first() =~= qt);
        let a = peval(ct, x0);
        let b = peval(qt, x);
        assert(q[0] == a);
        assert(peval(q, x) == a + x * b);
        assert(peval(c, x) == c[0] + x * peval(ct, x));
        assert(peval(c, x0) == c[0] + x0 * a);
        // c(x) = c0 + x (a + (x - x0) b) and c(x0) = c0 + x0 a, q(x) = a + x b.
        assert(c[0] + x * (a + (x - x0) * b) == (c[0] + x0 * a) + (x - x0) * (a + x * b)) by (nonlinear_arith);
    }
}

/// A polynomial with more roots than its degree vanishes everywhere.
pub proof fn lemma_roots_vanish(c: Seq<int>, xs: Seq<int>, r: int)
    requires
        fermat_holds(),
        c.len() <= xs.len(),
        forall|i: int| 0 <= i < xs.len() ==> 0 <= #[trigger] xs[i] < modulus(),
        forall|i: int, j: int| 0 <= i < j < xs.len() ==> xs[i] != xs[j],
        forall|i: int| 0 <= i < xs.len() ==> md(peval(c, #[trigger] xs[i])) == 0,
    ensures
        md(peval(c, r)) == 0,
    decreases c.len(),
{
    if c.len() == 0 {
        assert(md(0) == 0);
    } else {
        let n = xs.len();
        let x0 = xs[n - 1];
        let q = div_lin(c, x0);
        let ys = xs.drop_last();
        assert forall|i: int| 0 <= i < ys.len() implies md(peval(q, #[trigger] ys[i])) == 0 by {
            let y = xs[i];
            assert(ys[i] == y);
            lemma_div_lin(c, x0, y);
            assert(md(peval(c, y)) == 0);
            assert(md(peval(c, x0)) == 0);
            lemma_md_sub(peval(c, y), peval(c, x0));
            assert(md(0int - 0int) == 0);
            assert(peval(c, y) - peval(c, x0) == (y - x0) * peval(q, y));
            lemma_distinct_diff(y, x0);
            lemma_cancel(y - x0, peval(q, y));
        }
        lemma_div_lin(c, x0, r);
        lemma_roots_vanish(q, ys, r);
        assert(md(peval(c, x0)) == 0);
        lemma_md_mul(r - x0, peval(q, r));
        lemma_mul_basics(r - x0);
        assert(md((r - x0) * peval(q, r)) == 0);
        lemma_md_add(peval(c, x0), (r - x0) * peval(q, r));
    }
}

// ================================================================================
// Lagrange interpolation on {0, ..., d-1} with the point at infinity.
// ================================================================================

/// prod_{k < n} (r - k).
pub open spec fn vanishing_prod(r: int, n: nat) -> int {
    seq_prod(Seq::new(n, |k: int| r - k))
}

/// The factors (r - j) of the Lagrange numerator of node i, with 1 at j = i.
pub open spec fn num_factors(r: int, i: int) -> spec_fn(int) -> int {
    |j: int| if j == i { 1 } else { r - j }
}

/// prod_{j < n, j != i} (r - j): the Lagrange numerator.
pub open spec fn basis_num(r: int, i: int, n: nat) -> int {
    seq_prod(Seq::new(n, num_factors(r, i)))
}

/// prod_{j < n, j != i} (i - j): the Lagrange denominator.
pub open spec fn basis_den(i: int, n: nat) -> int {
    seq_prod(Seq::new(n, num_factors(i, i)))
}

/// The Lagrange coefficient of node i at r, the denominator inverted in the field.
pub open spec fn lagrange_coeff(r: int, i: int, d: nat) -> int {
    basis_num(r, i, d) * fe_inv(md(basis_den(i, d)) as nat)
}

pub proof fn lemma_basis_step(r: int, i: int, n: nat)
    ensures
        basis_num(r, i, n + 1) == basis_num(r, i, n) * (if n == i { 1 } else { r - n }),
        basis_den(i, n + 1) == basis_den(i, n) * (if n == i { 1 } else { i - n }),
{
    lemma_seq_prod_new_step(n, num_factors(r, i));
    lemma_seq_prod_new_step(n, num_factors(i, i));
}

/// The coefficients of prod_{j < n, j != i} (X - j).
pub open spec fn basis_poly(i: int, n: nat) -> Seq<int>
    decreases n,
{
    if n == 0 {
        seq![1int]
    } else if n - 1 == i {
        basis_poly(i, (n - 1) as nat)
    } else {
        pmul_lin(basis_poly(i, (n - 1) as nat), -(n - 1), 1)
    }
}

/// The basis polynomial evaluates to the Lagrange numerator, has one coefficient per
/// factor plus one, and is monic.
pub proof fn lemma_basis_poly(i: int, n: nat, x: int)
    ensures
        peval(basis_poly(i, n), x) == basis_num(x, i, n),
        basis_poly(i, n).len() == (if 0 <= i < n { n as int } else { n as int + 1 }),
        basis_poly(i, n)[basis_poly(i, n).len() - 1] == 1,
    decreases n,
{
    if n == 0 {
        lemma_peval_const(1, x);
        assert(Seq::new(0, num_factors(x, i)) =~= Seq::<int>::empty());
    } else {
        let m = (n - 1) as nat;
        lemma_basis_poly(i, m, x);
        lemma_basis_step(x, i, m);
        let c = basis_poly(i, m);
        if m != i {
            lemma_peval_mul_lin(c, -m, 1, x);
            lemma_mul_is_commutative(-m + 1 * x, peval(c, x));
            assert(-m + 1 * x == x - m);
            let r = pmul_lin(c, -m, 1);
            assert(r[c.len() as int] == -m * coef(c, c.len() as int) + 1 * coef(c, c.len() - 1));
            lemma_mul_basics(-m);
            lemma_mul_basics(coef(c, c.len() - 1));
        } else {
            lemma_mul_basics(basis_num(x, i, m));
        }
    }
}

/// prod_{k < n} (r - k) is the numerator of a node outside the range.
pub proof fn lemma_vanishing_is_basis(r: int, n: nat)
    ensures
        vanishing_prod(r, n) == basis_num(r, -1, n),
{
    assert(Seq::new(n, |k: int| r - k) =~= Seq::new(n, num_factors(r, -1)));
}

/// A product with a zero factor is zero.
pub proof fn lemma_prod_zero_factor(n: nat, f: spec_fn(int) -> int, j: int)
    requires
        0 <= j < n,
        f(j) == 0,
    ensures
        seq_prod(Seq::new(n, f)) == 0,
    decreases n,
{
    let m = (n - 1) as nat;
    lemma_seq_prod_new_step(m, f);
    if j < m {
        lemma_prod_zero_factor(m, f, j);
        lemma_mul_basics(f(m as int));
    } else {
        lemma_mul_basics(seq_prod(Seq::new(m, f)));
    }
}

/// A product of factors that are nonzero modulo p is nonzero modulo p.
pub proof fn lemma_prod_nonzero(n: nat, f: spec_fn(int) -> int)
    requires
        fermat_holds(),
        forall|j: int| 0 <= j < n ==> md(#[trigger] f(j)) != 0,
    ensures
        md(seq_prod(Seq::new(n, f))) != 0,
    decreases n,
{
    if n == 0 {
        assert(Seq::new(0, f) =~= Seq::<int>::empty());
        lemma_small_mod(1, modulus());
    } else {
        let m = (n - 1) as nat;
        lemma_seq_prod_new_step(m, f);
        lemma_prod_nonzero(m, f);
        lemma_nonzero_product(seq_prod(Seq::new(m, f)), f(m as int));
    }
}

/// A sum whose terms vanish except at m is its term at m.
pub proof fn lemma_sum_single(n: nat, f: spec_fn(int) -> int, m: int)
    requires
        0 <= m < n,
        forall|j: int| 0 <= j < n && j != m ==> #[trigger] f(j) == 0,
    ensures
        seq_sum(Seq::new(n, f)) == f(m),
    decreases n,
{
    let k = (n - 1) as nat;
    lemma_seq_sum_new_step(k, f);
    if m < k {
        lemma_sum_single(k, f, m);
    } else {
        lemma_sum_zero(k, f);
    }
}

/// A sum of zeros is zero.
pub proof fn lemma_sum_zero(n: nat, f: spec_fn(int) -> int)
    requires
        forall|j: int| 0 <= j < n ==> #[trigger] f(j) == 0,
    ensures
        seq_sum(Seq::new(n, f)) == 0,
    decreases n,
{
    if n == 0 {
        assert(Seq::new(0, f) =~= Seq::<int>::empty());
    } else {
        let k = (n - 1) as nat;
        lemma_seq_sum_new_step(k, f);
        lemma_sum_zero(k, f);
    }
}

/// A Lagrange denominator is nonzero modulo p.
pub proof fn lemma_basis_den_nonzero(i: int, d: nat)
    requires
        fermat_holds(),
        0 <= i < d,
        d <= modulus(),
    ensures
        md(basis_den(i, d)) != 0,
{
    assert forall|j: int| 0 <= j < d implies md(#[trigger] num_factors(i, i)(j)) != 0 by {
        if j == i {
            lemma_small_mod(1, modulus());
        } else {
            lemma_distinct_diff(i, j);
        }
    }
    lemma_prod_nonzero(d, num_factors(i, i));
}

/// Dropping a zero leading coefficient does not change the values.
pub proof fn lemma_peval_drop_zero(c: Seq<int>, x: int)
    requires
        c.len() >= 1,
        c[c.len() - 1] == 0,
    ensures
        peval(c.drop_last(), x) == peval(c, x),
    decreases c.len(),
{
    if c.len() == 1 {
        let e = Seq::<int>::empty();
        assert(c.drop_last() =~= e);
        assert(c.drop_first() =~= e);
        assert(peval(e, x) == 0);
        lemma_mul_basics(x);
        assert(peval(c, x) == c[0] + x * peval(e, x));
    } else {
        assert(c.drop_last().drop_first() =~= c.drop_first().drop_last());
        lemma_peval_drop_zero(c.drop_first(), x);
    }
}

/// Two integers congruent modulo p: a zero difference modulo p.
pub proof fn lemma_md_eq_of_diff(x: int, y: int)
    requires
        md(x - y) == 0,
    ensures
        md(x) == md(y),
{
    lemma_md_sub(x, y);
    lemma_md_range(x);
    lemma_md_range(y);
    if md(x) != md(y) {
        lemma_distinct_diff(md(x), md(y));
    }
}

/// The weight of node i: the value there times the inverse of the denominator.
pub open spec fn interp_weight(c: Seq<int>, i: int, d: nat) -> int {
    peval(c, i) * fe_inv(md(basis_den(i, d)) as nat)
}

/// The terms w_i N_i(x) of the interpolating polynomial at x.
pub open spec fn interp_terms(c: Seq<int>, d: nat, x: int) -> spec_fn(int) -> int {
    |i: int| interp_weight(c, i, d) * basis_num(x, i, d)
}

/// sum_{i < n} w_i N_i(X), as coefficients.
pub open spec fn interp_poly(c: Seq<int>, d: nat, n: nat) -> Seq<int>
    decreases n,
{
    if n == 0 {
        Seq::empty()
    } else {
        padd(interp_poly(c, d, (n - 1) as nat), pscale(basis_poly(n - 1, d), interp_weight(c, n - 1, d)))
    }
}

pub proof fn lemma_interp_poly(c: Seq<int>, d: nat, n: nat, x: int)
    requires
        n <= d,
    ensures
        peval(interp_poly(c, d, n), x) == seq_sum(Seq::new(n, interp_terms(c, d, x))),
        interp_poly(c, d, n).len() <= d,
    decreases n,
{
    if n == 0 {
        assert(Seq::new(0, interp_terms(c, d, x)) =~= Seq::<int>::empty());
    } else {
        let m = (n - 1) as nat;
        lemma_interp_poly(c, d, m, x);
        let b = basis_poly(m as int, d);
        lemma_basis_poly(m as int, d, x);
        lemma_peval_padd(interp_poly(c, d, m), pscale(b, interp_weight(c, m as int, d)), x);
        lemma_peval_pscale(b, interp_weight(c, m as int, d), x);
        lemma_seq_sum_new_step(m, interp_terms(c, d, x));
    }
}

/// Lagrange interpolation with the point at infinity: a polynomial of degree at most d
/// is, at any r, its coefficient of X^d times prod_{k<d} (r - k) plus the Lagrange
/// combination of its values at 0, ..., d-1, modulo p.
pub proof fn lemma_lagrange_infinity(c: Seq<int>, d: nat, r: int)
    requires
        fermat_holds(),
        1 <= d < modulus(),
        c.len() <= d + 1,
    ensures
        md(peval(c, r)) == md(coef(c, d as int) * vanishing_prod(r, d) + seq_sum(
            Seq::new(d, |i: int| peval(c, i) * lagrange_coeff(r, i, d)),
        )),
{
    let lead = coef(c, d as int);
    let v = basis_poly(-1, d);
    lemma_basis_poly(-1, d, r);
    let h = padd(c, pscale(v, -lead));
    assert(h.len() == d + 1);
    assert(h[d as int] == 0) by {
        assert(v[d as int] == 1);
        lemma_mul_basics(-lead);
    }
    let h1 = h.drop_last();
    let pp = interp_poly(c, d, d);
    let hh = padd(h1, pscale(pp, -1));
    lemma_interp_poly(c, d, d, r);
    assert(hh.len() <= d);
    // The value of hh at any x.
    assert forall|x: int| #[trigger] peval(hh, x) == peval(c, x) - lead * basis_num(x, -1, d) - seq_sum(
        Seq::new(d, interp_terms(c, d, x)),
    ) by {
        lemma_basis_poly(-1, d, x);
        lemma_peval_drop_zero(h, x);
        lemma_peval_padd(c, pscale(v, -lead), x);
        lemma_peval_pscale(v, -lead, x);
        lemma_interp_poly(c, d, d, x);
        lemma_peval_padd(h1, pscale(pp, -1), x);
        lemma_peval_pscale(pp, -1, x);
        lemma_mul_is_associative(-1, lead, basis_num(x, -1, d));
        assert((-lead) * basis_num(x, -1, d) == -(lead * basis_num(x, -1, d))) by (nonlinear_arith);
        assert(-1 * seq_sum(Seq::new(d, interp_terms(c, d, x))) == -seq_sum(Seq::new(d, interp_terms(c, d, x))));
    }
    // hh vanishes on 0, ..., d-1.
    let xs = Seq::new(d, |i: int| i);
    assert forall|m: int| 0 <= m < xs.len() implies md(peval(hh, #[trigger] xs[m])) == 0 by {
        assert(xs[m] == m);
        lemma_prod_zero_factor(d, num_factors(m, -1), m);
        lemma_mul_basics(lead);
        assert forall|j: int| 0 <= j < d && j != m implies #[trigger] interp_terms(c, d, m)(j) == 0 by {
            lemma_prod_zero_factor(d, num_factors(m, j), m);
            lemma_mul_basics(interp_weight(c, j, d));
        }
        lemma_sum_single(d, interp_terms(c, d, m), m);
        assert(basis_num(m, m, d) == basis_den(m, d));
        let den = basis_den(m, d);
        lemma_basis_den_nonzero(m, d);
        lemma_md_range(den);
        let inv: int = fe_inv(md(den) as nat) as int;
        assert(fe_mul(md(den) as nat, fe_inv(md(den) as nat)) == 1);
        assert(md(md(den) * inv) == 1);
        let y = peval(c, m);
        // y - y inv den = y (1 - inv den), and inv den = 1 modulo p.
        assert(peval(hh, m) == y - (y * inv) * den);
        assert(y - (y * inv) * den == y * (1 - inv * den)) by (nonlinear_arith);
        lemma_md_mul(inv, den);
        lemma_mul_is_commutative(md(den), inv);
        lemma_mul_is_commutative(den, inv);
        assert(md(inv * den) == 1);
        lemma_md_sub(1, inv * den);
        lemma_small_mod(1, modulus());
        assert(md(1 - inv * den) == md(1int - 1int));
        lemma_md_mul(y, 1 - inv * den);
        lemma_mul_basics(y);
        assert(md(y * md(1 - inv * den)) == md(0int));
    }
    assert forall|i: int| 0 <= i < xs.len() implies 0 <= #[trigger] xs[i] < modulus() by {}
    lemma_roots_vanish(hh, xs, r);
    // So c(r) - lead V(r) and sum_i w_i N_i(r) agree modulo p.
    let sum_w = seq_sum(Seq::new(d, interp_terms(c, d, r)));
    lemma_vanishing_is_basis(r, d);
    assert(peval(hh, r) == (peval(c, r) - (lead * vanishing_prod(r, d) + sum_w)));
    lemma_md_eq_of_diff(peval(c, r), lead * vanishing_prod(r, d) + sum_w);
    assert(Seq::new(d, interp_terms(c, d, r)) =~= Seq::new(d, |i: int| peval(c, i) * lagrange_coeff(r, i, d))) by {
        assert forall|i: int| 0 <= i < d implies #[trigger] interp_terms(c, d, r)(i) == peval(c, i) * lagrange_coeff(r, i, d) by {
            let inv: int = fe_inv(md(basis_den(i, d)) as nat) as int;
            let y = peval(c, i);
            let nn = basis_num(r, i, d);
            assert((y * inv) * nn == y * (nn * inv)) by (nonlinear_arith);
        }
    }
}

// ================================================================================
// Inverses.
// ================================================================================

/// The inverse of a modulo p, where a has one.
pub open spec fn field_inv(a: nat) -> nat {
    choose|b: nat| b < modulus() && fe_mul(a, b) == 1
}

/// An inverse is unique: any b below p with a b = 1 modulo p is the inverse.
pub proof fn lemma_field_inv_unique(a: nat, b: nat)
    requires
        b < modulus(),
        fe_mul(a, b) == 1,
    ensures
        field_inv(a) == b,
{
    let c = field_inv(a);
    assert(c < modulus() && fe_mul(a, c) == 1);
    // b = b (a c) = (a b) c = c modulo p.
    let ai = a as int;
    let bi = b as int;
    let ci = c as int;
    assert(md(ai * bi) == 1 && md(ai * ci) == 1);
    lemma_md_mul(bi, ai * ci);
    lemma_md_mul(ai * bi, ci);
    lemma_mul_basics(bi);
    lemma_mul_basics(ci);
    assert(bi * (ai * ci) == (ai * bi) * ci) by (nonlinear_arith);
    lemma_small_mod(b, modulus());
    lemma_small_mod(c, modulus());
    assert(md(bi) == md(bi * md(ai * ci)));
    assert(md(ci) == md(md(ai * bi) * ci));
}

/// Under Fermat's little theorem the inverse is a^(p-2).
pub proof fn lemma_field_inv_fermat(a: nat)
    requires
        fermat_holds(),
        0 < a < modulus(),
    ensures
        field_inv(a) == fe_inv(a),
{
    assert(fe_mul(a, fe_inv(a)) == 1);
    lemma_md_range(vstd::arithmetic::power::pow(a as int, (modulus() - 2) as nat));
    lemma_field_inv_unique(a, fe_inv(a));
}

/// The Lagrange denominators of the nodes 0, ..., d-1 are invertible modulo p.
pub open spec fn denominators_invertible(d: nat) -> bool {
    forall|i: int| 0 <= i < d ==> md(#[trigger] basis_den(i, d)) != 0
}

/// For small d the Lagrange denominator is a nonzero integer of at most 5 n bits.
proof fn lemma_basis_den_bound(i: int, n: nat)
    requires
        0 <= i < 32,
        n <= 32,
    ensures
        basis_den(i, n) != 0,
        -vstd::arithmetic::power2::pow2(5 * n) <= basis_den(i, n) <= vstd::arithmetic::power2::pow2(5 * n),
    decreases n,
{
    if n == 0 {
        assert(Seq::new(0, num_factors(i, i)) =~= Seq::<int>::empty());
        vstd::arithmetic::power2::lemma2_to64();
    } else {
        let m = (n - 1) as nat;
        lemma_basis_den_bound(i, m);
        lemma_basis_step(i, i, m);
        vstd::arithmetic::power2::lemma_pow2_adds(5 * m, 5);
        vstd::arithmetic::power2::lemma2_to64();
        assert(5 * m + 5 == 5 * n);
        let b = basis_den(i, m);
        let f: int = if m == i { 1 } else { i - m };
        let pb = vstd::arithmetic::power2::pow2(5 * m) as int;
        assert(f != 0 && -32 <= f <= 32);
        assert(b * f != 0 && -(pb * 32) <= b * f <= pb * 32) by (nonlinear_arith)
            requires
                b != 0,
                f != 0,
                -pb <= b <= pb,
                -32 <= f <= 32,
        ;
    }
}

/// Without any hypothesis on p, the Lagrange denominators of the nodes 0, ..., d-1 are
/// invertible modulo p for every d up to 32: each is a nonzero integer smaller than p
/// in absolute value.
pub proof fn lemma_small_denominators_invertible(d: nat)
    requires
        d <= 32,
    ensures
        denominators_invertible(d),
{
    let p = modulus() as int;
    vstd::arithmetic::power2::lemma_pow2_adds(64, 64);
    vstd::arithmetic::power2::lemma_pow2_adds(128, 32);
    vstd::arithmetic::power2::lemma2_to64();
    assert(vstd::arithmetic::power2::pow2(160) < p);
    assert forall|i: int| 0 <= i < d implies md(#[trigger] basis_den(i, d)) != 0 by {
        lemma_basis_den_bound(i, d);
        if 5 * d < 160 {
            vstd::arithmetic::power2::lemma_pow2_strictly_increases(5 * d, 160);
        }
        let b = basis_den(i, d);
        if b > 0 {
            lemma_small_mod(b as nat, p as nat);
        } else {
            vstd::arithmetic::div_mod::lemma_mod_add_multiples_vanish(b, p);
            lemma_small_mod((b + p) as nat, p as nat);
        }
    }
}

/// In the field every d below p has invertible denominators.
pub proof fn lemma_denominators_invertible(d: nat)
    requires
        fermat_holds(),
        d <= modulus(),
    ensures
        denominators_invertible(d),
{
    assert forall|i: int| 0 <= i < d implies md(#[trigger] basis_den(i, d)) != 0 by {
        lemma_basis_den_nonzero(i, d);
    }
}

/// The Lagrange coefficient of node i at r, with the inverse of the denominator.
pub open spec fn lagrange_coeff_inv(r: int, i: int, d: nat) -> int {
    basis_num(r, i, d) * field_inv(md(basis_den(i, d)) as nat)
}

// ================================================================================
// Translation.
// ================================================================================

/// The coefficients of c(X + s).
pub open spec fn pshift(c: Seq<int>, s: int) -> Seq<int>
    decreases c.len(),
{
    if c.len() == 0 {
        c
    } else {
        let q = pshift(c.drop_first(), s);
        padd(seq![c[0]], padd(pscale(q, s), pmul_lin(q, 0, 1)))
    }
}

/// c(X + s) has the values of c shifted, the same number of coefficients and the
/// same leading coefficient.
pub proof fn lemma_pshift(c: Seq<int>, s: int, x: int)
    ensures
        peval(pshift(c, s), x) == peval(c, x + s),
        pshift(c, s).len() == c.len(),
        c.len() >= 1 ==> coef(pshift(c, s), c.len() - 1) == c[c.len() - 1],
    decreases c.len(),
{
    if c.len() > 0 {
        let ct = c.drop_first();
        let q = pshift(ct, s);
        lemma_pshift(ct, s, x);
        lemma_peval_padd(pscale(q, s), pmul_lin(q, 0, 1), x);
        lemma_peval_padd(seq![c[0]], padd(pscale(q, s), pmul_lin(q, 0, 1)), x);
        lemma_peval_const(c[0], x);
        lemma_peval_pscale(q, s, x);
        lemma_peval_mul_lin(q, 0, 1, x);
        let t = peval(ct, x + s);
        assert(c[0] + (s * t + (0 + 1 * x) * t) == c[0] + (x + s) * t) by (nonlinear_arith);
        if c.len() >= 2 {
            let n = c.len() - 1;
            let r = pmul_lin(q, 0, 1);
            assert(r[n] == 0 * coef(q, n) + 1 * coef(q, n - 1));
            lemma_mul_basics(coef(q, n));
            assert(ct[ct.len() - 1] == c[c.len() - 1]);
        } else {
            assert(q.len() == 0);
            lemma_mul_basics(0);
        }
    }
}

} // verus!
