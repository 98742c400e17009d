//! Multivariate extrapolation is exact for every function of degree at most k in each
//! variable: extending the grid over U_k^v axis by axis gives the function's values,
//! modulo p, on U_(k+n)^v. The point at infinity (coordinate -1) stands, along each
//! axis, for the leading coefficient.
use crate::engine::{extend_axes, extend_axis, grid_line, lemma_line_extend_exact, lemma_line_extend_len, line_extend};
use crate::field_math::md;
use crate::completeness::pair_poly;
use crate::grid_values::{coord, grid_point, grid_pt, lemma_axis_points, lemma_prod_along, lemma_prod_lines, ml_value, prod_value};
use crate::poly::{coef, fermat_holds, peval};
use vstd::arithmetic::power::pow;
use vstd::prelude::*;

verus! {

/// f has degree at most k in each of its v variables: along every axis u, through
/// every point pt, its values at 0, 1, 2, ... are, modulo p, those of the polynomial
/// lc(pt, u) (at most k + 1 coefficients), and its value at infinity (-1) is that
/// polynomial's coefficient of X^k.
pub open spec fn separately_polynomial(
    f: spec_fn(Seq<int>) -> int,
    lc: spec_fn(Seq<int>, int) -> Seq<int>,
    k: nat,
    v: nat,
) -> bool {
    forall|pt: Seq<int>, u: int|
        #![trigger lc(pt, u)]
        pt.len() == v && 0 <= u < v ==> {
            &&& lc(pt, u).len() <= k + 1
            &&& md(f(pt.update(u, -1))) == md(coef(lc(pt, u), k as int))
            &&& forall|x: int| 0 <= x ==> md(#[trigger] f(pt.update(u, x))) == md(peval(lc(pt, u), x))
        }
}

/// One axis extension keeps the grid holding f.
proof fn lemma_extend_axis_general(
    e: Seq<int>,
    f: spec_fn(Seq<int>) -> int,
    lc: spec_fn(Seq<int>, int) -> Seq<int>,
    k: nat,
    n: nat,
    v: nat,
    j: nat,
)
    requires
        fermat_holds(),
        1 <= k <= usize::MAX,
        separately_polynomial(f, lc, k, v),
        j < v,
        e.len() == pow((k + n + 1) as int, j) * pow((k + 1) as int, (v - j) as nat),
        forall|i: int| 0 <= i < e.len() ==> md(#[trigger] e[i]) == md(f(grid_pt(i, (k + 1) as nat, (k + n + 1) as nat, v, j))),
    ensures
        ({
            let e2 = extend_axis(
                e,
                pow((k + n + 1) as int, j) as nat,
                pow((k + 1) as int, (v - j - 1) as nat) as nat,
                k,
                n,
            );
            &&& e2.len() == pow((k + n + 1) as int, j + 1) * pow((k + 1) as int, (v - j - 1) as nat)
            &&& forall|i: int| 0 <= i < e2.len() ==> md(#[trigger] e2[i]) == md(f(grid_pt(i, (k + 1) as nat, (k + n + 1) as nat, v, j + 1)))
        }),
{
    let bk = (k + 1) as nat;
    let bd = (k + n + 1) as nat;
    let u = (v - j - 1) as nat;
    let left = pow(bd as int, j) as nat;
    let right = pow(bk as int, u) as nat;
    crate::engine::lemma_axis_sizes(bk, bd, v, j + 1);
    assert((j + 1 - 1) as nat == j);
    assert((v - (j + 1)) as nat == u);
    vstd::arithmetic::power::lemma_pow_positive(bd as int, j);
    vstd::arithmetic::power::lemma_pow_positive(bk as int, u);
    let e2 = extend_axis(e, left, right, k, n);
    assert(e2.len() == left * bd * right);
    assert forall|i: int| 0 <= i < e2.len() implies md(#[trigger] e2[i]) == md(f(grid_pt(i, bk, bd, v, j + 1))) by {
        crate::engine::lemma_grid_bound_rev(i, bd as int, right as int, left as int);
        crate::engine::lemma_grid_decompose(i, bd as int, right as int);
        let a = (i / right as int) / bd as int;
        let pos = (i / right as int) % bd as int;
        let b = i % right as int;
        let w = grid_line(e, a, b, k, right);
        let base = grid_pt(i, bk, bd, v, j + 1);
        let c = lc(base, u as int);
        assert(c.len() <= k + 1 && md(f(base.update(u as int, -1))) == md(coef(c, k as int)));
        // The line's entries are f along the axis.
        assert forall|t: int| 0 <= t <= k implies md(#[trigger] w[t]) == md(f(base.update(u as int, coord(t)))) by {
            crate::engine::lemma_grid_bound(a, t, b, bk as int, right as int, left as int);
            lemma_axis_points(a, pos, b, t, k, n, v, j);
        }
        assert(md(w[0]) == md(coef(c, k as int)));
        assert forall|t: int| 0 <= t < k implies md(#[trigger] w[1 + t]) == md(peval(c, t)) by {
            assert(coord(t + 1) == t);
            assert(md(f(base.update(u as int, t))) == md(peval(c, t)));
        }
        lemma_line_extend_exact(c, w, k, n);
        lemma_line_extend_len(w, k, n);
        lemma_axis_points(a, pos, b, 0, k, n, v, j);
        assert(e2[i] == line_extend(w, k, n)[pos]);
        if pos == 0 {
            assert(base.update(u as int, -1) =~= base);
        } else {
            let x = pos - 1;
            assert(md(f(base.update(u as int, x))) == md(peval(c, x)));
            assert(base.update(u as int, x) =~= base);
            assert(line_extend(w, k, n)[1 + x] == line_extend(w, k, n)[pos]);
        }
    }
}

/// The extension of the top j axes keeps the grid holding f.
proof fn lemma_extend_axes_general(
    g: Seq<int>,
    f: spec_fn(Seq<int>) -> int,
    lc: spec_fn(Seq<int>, int) -> Seq<int>,
    k: nat,
    n: nat,
    v: nat,
    j: nat,
)
    requires
        fermat_holds(),
        1 <= k <= usize::MAX,
        separately_polynomial(f, lc, k, v),
        j <= v,
        g.len() == pow((k + 1) as int, v),
        forall|i: int| 0 <= i < g.len() ==> md(#[trigger] g[i]) == md(f(grid_pt(i, (k + 1) as nat, (k + n + 1) as nat, v, 0))),
    ensures
        extend_axes(g, k, n, v, j).len() == pow((k + n + 1) as int, j) * pow((k + 1) as int, (v - j) as nat),
        forall|i: int| 0 <= i < extend_axes(g, k, n, v, j).len() ==> md(#[trigger] extend_axes(g, k, n, v, j)[i])
            == md(f(grid_pt(i, (k + 1) as nat, (k + n + 1) as nat, v, j))),
    decreases j,
{
    if j == 0 {
        vstd::arithmetic::power::lemma_pow0((k + n + 1) as int);
    } else {
        let j1 = (j - 1) as nat;
        lemma_extend_axes_general(g, f, lc, k, n, v, j1);
        lemma_extend_axis_general(extend_axes(g, k, n, v, j1), f, lc, k, n, v, j1);
        assert((v - j1 - 1) as nat == (v - j) as nat);
    }
}

/// Multivariate extrapolation is exact: when the grid over U_k^v holds, modulo p, a
/// function f of degree at most k in each variable at each of its points, the grid
/// extended by n points per axis holds f at each point of U_(k+n)^v.
pub proof fn lemma_extrapolation_general(
    g: Seq<int>,
    f: spec_fn(Seq<int>) -> int,
    lc: spec_fn(Seq<int>, int) -> Seq<int>,
    k: nat,
    n: nat,
    v: nat,
)
    requires
        fermat_holds(),
        1 <= k <= usize::MAX,
        separately_polynomial(f, lc, k, v),
        g.len() == pow((k + 1) as int, v),
        forall|i: int| 0 <= i < g.len() ==> md(#[trigger] g[i]) == md(f(grid_point(i, k, v))),
    ensures
        extend_axes(g, k, n, v, v).len() == pow((k + n + 1) as int, v),
        forall|i: int| 0 <= i < extend_axes(g, k, n, v, v).len() ==> md(#[trigger] extend_axes(g, k, n, v, v)[i]) == md(
            f(grid_point(i, (k + n) as nat, v)),
        ),
{
    let bk = (k + 1) as nat;
    let bd = (k + n + 1) as nat;
    assert forall|i: int| 0 <= i < g.len() implies md(#[trigger] g[i]) == md(f(grid_pt(i, bk, bd, v, 0))) by {
        assert(grid_pt(i, bk, bd, v, 0) =~= grid_point(i, k, v));
    }
    lemma_extend_axes_general(g, f, lc, k, n, v, v);
    vstd::arithmetic::power::lemma_pow0(bk as int);
    let e = extend_axes(g, k, n, v, v);
    assert(e.len() == pow(bd as int, v) * 1);
    assert forall|i: int| 0 <= i < e.len() implies md(#[trigger] e[i]) == md(f(grid_point(i, (k + n) as nat, v))) by {
        assert(i / pow(bk as int, 0) == i);
        assert(grid_pt(i, bk, bd, v, v) =~= grid_point(i, (k + n) as nat, v));
    }
}


/// The product of the multilinear functions of the tables ts.
pub open spec fn product_fn(ts: Seq<Seq<int>>) -> spec_fn(Seq<int>) -> int {
    |pt: Seq<int>| prod_value(ts, pt)
}

/// Along axis u through pt, the product of the tables' lines: prod_s (lo_s + X (hi_s - lo_s)),
/// lo_s and hi_s table s's function with coordinate u set to 0 and to 1.
pub open spec fn product_lines(ts: Seq<Seq<int>>) -> spec_fn(Seq<int>, int) -> Seq<int> {
    |pt: Seq<int>, u: int|
        pair_poly(
            Seq::new(ts.len(), |s: int| seq![ml_value(ts[s], pt.update(u, 0)), ml_value(ts[s], pt.update(u, 1))]),
            0,
            ts.len(),
        )
}

/// A product of k multilinear functions has degree at most k in each variable.
pub proof fn lemma_products_separately_polynomial(ts: Seq<Seq<int>>, v: nat)
    ensures
        separately_polynomial(product_fn(ts), product_lines(ts), ts.len(), v),
{
    let k = ts.len();
    assert forall|pt: Seq<int>, u: int| #![trigger product_lines(ts)(pt, u)] pt.len() == v && 0 <= u < v implies {
        &&& product_lines(ts)(pt, u).len() <= k + 1
        &&& md(product_fn(ts)(pt.update(u, -1))) == md(coef(product_lines(ts)(pt, u), k as int))
        &&& forall|x: int| 0 <= x ==> md(#[trigger] product_fn(ts)(pt.update(u, x))) == md(peval(product_lines(ts)(pt, u), x))
    } by {
        let lo = Seq::new(k, |s: int| ml_value(ts[s], pt.update(u, 0)));
        let hi = Seq::new(k, |s: int| ml_value(ts[s], pt.update(u, 1)));
        assert(Seq::new(k, |s: int| seq![ml_value(ts[s], pt.update(u, 0)), ml_value(ts[s], pt.update(u, 1))]) =~= Seq::new(
            k,
            |s: int| seq![lo[s], hi[s]],
        ));
        lemma_prod_lines(lo, hi, k, 0);
        lemma_prod_along(ts, pt, u, -1);
        assert forall|x: int| 0 <= x implies md(#[trigger] product_fn(ts)(pt.update(u, x))) == md(peval(product_lines(ts)(pt, u), x)) by {
            lemma_prod_lines(lo, hi, k, x);
            lemma_prod_along(ts, pt, u, x);
        }
    }
}

} // verus!
