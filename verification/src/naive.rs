//! The first sum-check, on a single multivariate polynomial given by its monomials:
//! in each round the prover splits the polynomial along the round's variable into
//! X_i * A + B and sends the line b + a X, summed over the rest of the hypercube; the
//! verifier checks p(0) + p(1) against its claim and moves to p(w) at its challenge.
use crate::ark_field::{fr_add, fr_from_u64};
use crate::bigint_field::StdFr2;
use crate::completeness::lemma_sum_even_odd;
use crate::field_math::{lemma_fe_add_md, lemma_md_canonical, lemma_seq_sum_new_step, md, seq_sum};
use crate::sc_verifier::elems_canonical;
use crate::sumcheck_model::elems_values;
use ark_ff::{BigInteger256, Field, PrimeField};
use ark_poly::polynomial::multivariate::{SparsePolynomial, SparseTerm, Term};
use ark_poly::univariate::DensePolynomial;
use ark_poly::{DenseMVPolynomial, DenseUVPolynomial, Polynomial};
use ark_test_curves::bls12_381::Fr;
use vstd::arithmetic::power::pow;
use vstd::arithmetic::power2::pow2;
use vstd::prelude::*;

verus! {

// ================================================================================
// Polynomials and their values.
// ================================================================================

/// A polynomial in `num_vars` variables as a list of monomials: a coefficient and
/// the (variable, power) pairs of the term.
pub struct SparsePoly {
    pub num_vars: usize,
    pub terms: Vec<(StdFr2, Vec<(usize, usize)>)>,
}

/// Whether a polynomial is multilinear, or multivariate of some total degree.
pub enum PolyType {
    Multilinear,
    Multivariate(usize),
}

/// The monomials as (coefficient value, term).
pub open spec fn terms_view(terms: Seq<(StdFr2, Vec<(usize, usize)>)>) -> Seq<(int, Seq<(usize, usize)>)> {
    terms.map_values(|t: (StdFr2, Vec<(usize, usize)>)| (t.0.value() as int, t.1@))
}

/// Canonical coefficients, every variable below n, and every term's degree within a
/// `usize`.
pub open spec fn terms_wf(terms: Seq<(StdFr2, Vec<(usize, usize)>)>, n: nat) -> bool {
    &&& forall|t: int| 0 <= t < terms.len() ==> (#[trigger] terms[t]).0.is_canonical()
    &&& forall|t: int, j: int| 0 <= t < terms.len() && 0 <= j < terms[t].1@.len() ==> (#[trigger] terms[t].1@[j]).0 < n
    &&& forall|t: int| 0 <= t < terms.len() ==> term_degree((#[trigger] terms[t]).1@) <= usize::MAX
}

impl SparsePoly {
    /// The monomials as (coefficient value, term).
    pub open spec fn view_terms(&self) -> Seq<(int, Seq<(usize, usize)>)> {
        terms_view(self.terms@)
    }

    /// Canonical coefficients, every variable below `num_vars`, and every term's
    /// degree within a `usize`.
    pub open spec fn wf(&self) -> bool {
        terms_wf(self.terms@, self.num_vars as nat)
    }
}

/// prod_j pt[v_j]^(e_j).
pub open spec fn term_value(term: Seq<(usize, usize)>, pt: Seq<int>) -> int
    decreases term.len(),
{
    if term.len() == 0 {
        1
    } else {
        term_value(term.drop_last(), pt) * pow(pt[term.last().0 as int], term.last().1 as nat)
    }
}

/// sum_t c_t * term_t(pt), as an integer.
pub open spec fn poly_value(terms: Seq<(int, Seq<(usize, usize)>)>, pt: Seq<int>) -> int
    decreases terms.len(),
{
    if terms.len() == 0 {
        0
    } else {
        poly_value(terms.drop_last(), pt) + terms.last().0 * term_value(terms.last().1, pt)
    }
}

/// sum_j c_j x^j, as an integer.
pub open spec fn upoly_value(coeffs: Seq<int>, x: int) -> int
    decreases coeffs.len(),
{
    if coeffs.len() == 0 {
        0
    } else {
        upoly_value(coeffs.drop_last(), x) + coeffs.last() * pow(x, (coeffs.len() - 1) as nat)
    }
}

/// The total degree of a term: the sum of its powers.
pub open spec fn term_degree(term: Seq<(usize, usize)>) -> nat
    decreases term.len(),
{
    if term.len() == 0 {
        0
    } else {
        term_degree(term.drop_last()) + term.last().1 as nat
    }
}

/// The total degree of a polynomial: the largest degree of its terms, 0 without terms.
pub open spec fn poly_degree(terms: Seq<(int, Seq<(usize, usize)>)>) -> nat
    decreases terms.len(),
{
    if terms.len() == 0 {
        0
    } else {
        let rest = poly_degree(terms.drop_last());
        let last = term_degree(terms.last().1);
        if last > rest {
            last
        } else {
            rest
        }
    }
}

/// Some term has a power above one: its degree exceeds its number of variables.
pub open spec fn has_high_power(terms: Seq<(int, Seq<(usize, usize)>)>) -> bool {
    exists|t: int| 0 <= t < terms.len() && term_degree((#[trigger] terms[t]).1) > terms[t].1.len()
}

/// The point of {0,1}^k whose coordinate j is bit j of i.
pub open spec fn hypercube_point(i: int, k: nat) -> Seq<int> {
    Seq::new(k, |j: int| (i / pow2(j as nat) as int) % 2)
}

// ================================================================================
// arkworks' polynomials.
// ================================================================================

/// `Polynomial::evaluate` of ark-poly's `SparsePolynomial<Fr, SparseTerm>` (each term
/// built with `SparseTerm::new`, which only drops zero powers and merges repeated
/// variables): sum_t c_t prod_j pt[v_j]^(e_j) modulo p.
#[verifier::external_body]
fn sparse_evaluate(poly: &SparsePoly, point: &[StdFr2]) -> (r: StdFr2)
    requires
        poly.wf(),
        point@.len() >= poly.num_vars,
        elems_canonical(point@),
    ensures
        r.is_canonical(),
        r.value() == md(poly_value(poly.view_terms(), elems_values(point@))),
{
    let terms: Vec<(Fr, SparseTerm)> = poly.terms.iter().map(|(c, t)| (Fr::from_bigint(BigInteger256::new(c.0)).unwrap(), SparseTerm::new(t.clone()))).collect();
    let p = SparsePolynomial { num_vars: poly.num_vars, terms };
    let pt: Vec<Fr> = point.iter().map(|e| Fr::from_bigint(BigInteger256::new(e.0)).unwrap()).collect();
    StdFr2(p.evaluate(&pt).into_bigint().0)
}

/// `DenseMVPolynomial::from_coefficients_vec` of ark-poly's `SparsePolynomial<Fr,
/// SparseTerm>`: the terms sorted, equal terms merged (coefficients added) and zero
/// coefficients dropped. The polynomial is the same function of the point.
#[verifier::external_body]
fn sparse_from_coefficients_vec(num_vars: usize, terms: Vec<(StdFr2, Vec<(usize, usize)>)>) -> (r: SparsePoly)
    requires
        terms_wf(terms@, num_vars as nat),
    ensures
        r.num_vars == num_vars,
        r.wf(),
        forall|pt: Seq<int>| md(#[trigger] poly_value(r.view_terms(), pt)) == md(poly_value(terms_view(terms@), pt)),
{
    let ts: Vec<(Fr, SparseTerm)> = terms.into_iter().map(|(c, t)| (Fr::from_bigint(BigInteger256::new(c.0)).unwrap(), SparseTerm::new(t))).collect();
    let p = SparsePolynomial::from_coefficients_vec(num_vars, ts);
    SparsePoly { num_vars, terms: p.terms.into_iter().map(|(c, t)| (StdFr2(c.into_bigint().0), t.to_vec())).collect() }
}

/// `Polynomial::evaluate` of ark-poly's `DensePolynomial<Fr>` built from the
/// coefficients (`from_coefficients_vec`, which drops trailing zeros): sum_j c_j x^j
/// modulo p.
#[verifier::external_body]
fn dense_evaluate(coeffs: &[StdFr2], x: &StdFr2) -> (r: StdFr2)
    requires
        elems_canonical(coeffs@),
        x.is_canonical(),
    ensures
        r.is_canonical(),
        r.value() == md(upoly_value(elems_values(coeffs@), x.value() as int)),
{
    let cs: Vec<Fr> = coeffs.iter().map(|e| Fr::from_bigint(BigInteger256::new(e.0)).unwrap()).collect();
    let p = DensePolynomial::from_coefficients_vec(cs);
    StdFr2(p.evaluate(&Fr::from_bigint(BigInteger256::new(x.0)).unwrap()).into_bigint().0)
}

} // verus!

verus! {

// ================================================================================
// Splitting a polynomial along one variable.
// ================================================================================

/// The term mentions variable i.
pub open spec fn has_var(term: Seq<(usize, usize)>, i: usize) -> bool {
    exists|j: int| 0 <= j < term.len() && (#[trigger] term[j]).0 == i
}

/// The term with every pair on variable i removed.
pub open spec fn without_var(term: Seq<(usize, usize)>, i: usize) -> Seq<(usize, usize)>
    decreases term.len(),
{
    if term.len() == 0 {
        Seq::empty()
    } else {
        let rest = without_var(term.drop_last(), i);
        if term.last().0 == i {
            rest
        } else {
            rest.push(term.last())
        }
    }
}

/// With `with_var`, the terms that mention variable i, with it removed (the
/// coefficient A of X_i); without, the terms that do not mention it (B).
pub open spec fn split_terms(terms: Seq<(int, Seq<(usize, usize)>)>, i: usize, with_var: bool) -> Seq<(int, Seq<(usize, usize)>)>
    decreases terms.len(),
{
    if terms.len() == 0 {
        Seq::empty()
    } else {
        let rest = split_terms(terms.drop_last(), i, with_var);
        let t = terms.last();
        if has_var(t.1, i) == with_var {
            rest.push((t.0, if with_var { without_var(t.1, i) } else { t.1 }))
        } else {
            rest
        }
    }
}

proof fn lemma_has_var_step(term: Seq<(usize, usize)>, i: usize, j: int)
    requires
        0 <= j < term.len(),
    ensures
        has_var(term.take(j + 1), i) == (has_var(term.take(j), i) || term[j].0 == i),
        term.take(j + 1).drop_last() == term.take(j),
        term.take(j + 1).last() == term[j],
{
    assert(term.take(j + 1).drop_last() =~= term.take(j));
    if has_var(term.take(j), i) {
        let k = choose|k: int| 0 <= k < term.take(j).len() && (#[trigger] term.take(j)[k]).0 == i;
        assert(term.take(j + 1)[k] == term.take(j)[k]);
    }
    if term[j].0 == i {
        assert(term.take(j + 1)[j] == term[j]);
    }
    if has_var(term.take(j + 1), i) {
        let k = choose|k: int| 0 <= k < term.take(j + 1).len() && (#[trigger] term.take(j + 1)[k]).0 == i;
        if k < j {
            assert(term.take(j)[k] == term.take(j + 1)[k]);
        }
    }
}

/// A copy of a term without the pairs on variable i.
fn term_without_var(term: &Vec<(usize, usize)>, i: usize) -> (r: (bool, Vec<(usize, usize)>))
    ensures
        r.0 == has_var(term@, i),
        r.1@ == without_var(term@, i),
{
    let mut found = false;
    let mut clean: Vec<(usize, usize)> = Vec::new();
    proof {
        assert(term@.take(0) =~= Seq::<(usize, usize)>::empty());
    }
    for j in 0..term.len()
        invariant
            found == has_var(term@.take(j as int), i),
            clean@ == without_var(term@.take(j as int), i),
    {
        proof {
            lemma_has_var_step(term@, i, j as int);
        }
        let pair = term[j];
        if pair.0 == i {
            found = true;
        } else {
            clean.push(pair);
        }
    }
    proof {
        assert(term@.take(term@.len() as int) =~= term@);
    }
    (found, clean)
}

/// Splits the polynomial along the variable of the round: returns (A, B) with
/// poly = X_i * A + B when poly is multilinear, A from the terms that mention X_i (with
/// it removed), B from the others.
pub fn find_polynomial_coeff(poly: &SparsePoly, current_round: usize) -> (r: (SparsePoly, SparsePoly))
    requires
        poly.wf(),
    ensures
        r.0.num_vars == poly.num_vars,
        r.1.num_vars == poly.num_vars,
        r.0.wf(),
        r.1.wf(),
        forall|pt: Seq<int>| md(#[trigger] poly_value(r.0.view_terms(), pt)) == md(poly_value(split_terms(poly.view_terms(), current_round, true), pt)),
        forall|pt: Seq<int>| md(#[trigger] poly_value(r.1.view_terms(), pt)) == md(poly_value(split_terms(poly.view_terms(), current_round, false), pt)),
{
    let mut a_terms: Vec<(StdFr2, Vec<(usize, usize)>)> = Vec::new();
    let mut b_terms: Vec<(StdFr2, Vec<(usize, usize)>)> = Vec::new();
    let ghost tv = poly.view_terms();
    proof {
        assert(tv.take(0) =~= Seq::<(int, Seq<(usize, usize)>)>::empty());
    }
    for t in 0..poly.terms.len()
        invariant
            poly.wf(),
            tv == poly.view_terms(),
            terms_wf(a_terms@, poly.num_vars as nat),
            terms_wf(b_terms@, poly.num_vars as nat),
            terms_view(a_terms@) == split_terms(tv.take(t as int), current_round, true),
            terms_view(b_terms@) == split_terms(tv.take(t as int), current_round, false),
    {
        let coeff = poly.terms[t].0;
        let (found, clean) = term_without_var(&poly.terms[t].1, current_round);
        proof {
            assert(tv.take(t + 1).drop_last() =~= tv.take(t as int));
            assert(tv.take(t + 1).last() == tv[t as int]);
            assert(poly.terms@[t as int].0.is_canonical());
        }
        if found {
            proof {
                lemma_without_var_vars(poly.terms@[t as int].1@, current_round, poly.num_vars as nat);
                lemma_without_var_degree(poly.terms@[t as int].1@, current_round);
            }
            let ghost before = a_terms@;
            a_terms.push((coeff, clean));
            proof {
                assert(terms_view(a_terms@) =~= terms_view(before).push((coeff.value() as int, clean@)));
                assert forall|tt: int, j: int| 0 <= tt < a_terms@.len() && 0 <= j < a_terms@[tt].1@.len() implies (#[trigger] a_terms@[tt].1@[j]).0 < poly.num_vars by {
                    if tt < before.len() {
                        assert(a_terms@[tt] == before[tt]);
                    }
                }
            }
        } else {
            let copy = vstd::slice::slice_to_vec(poly.terms[t].1.as_slice());
            let ghost before = b_terms@;
            b_terms.push((coeff, copy));
            proof {
                assert(terms_view(b_terms@) =~= terms_view(before).push((coeff.value() as int, copy@)));
                assert forall|tt: int, j: int| 0 <= tt < b_terms@.len() && 0 <= j < b_terms@[tt].1@.len() implies (#[trigger] b_terms@[tt].1@[j]).0 < poly.num_vars by {
                    if tt < before.len() {
                        assert(b_terms@[tt] == before[tt]);
                    } else {
                        assert(b_terms@[tt].1@ == poly.terms@[t as int].1@);
                    }
                }
            }
        }
    }
    proof {
        assert(tv.take(poly.terms@.len() as int) =~= tv);
    }
    let a_x = sparse_from_coefficients_vec(poly.num_vars, a_terms);
    let b_x = sparse_from_coefficients_vec(poly.num_vars, b_terms);
    (a_x, b_x)
}

/// Removing a variable does not raise the degree.
proof fn lemma_without_var_degree(term: Seq<(usize, usize)>, i: usize)
    ensures
        term_degree(without_var(term, i)) <= term_degree(term),
    decreases term.len(),
{
    if term.len() > 0 {
        lemma_without_var_degree(term.drop_last(), i);
        let w = without_var(term.drop_last(), i);
        if term.last().0 != i {
            assert(w.push(term.last()).drop_last() =~= w);
        }
    }
}

/// The variables of a term without variable i are variables of the term.
proof fn lemma_without_var_vars(term: Seq<(usize, usize)>, i: usize, n: nat)
    requires
        forall|j: int| 0 <= j < term.len() ==> (#[trigger] term[j]).0 < n,
    ensures
        forall|j: int| 0 <= j < without_var(term, i).len() ==> (#[trigger] without_var(term, i)[j]).0 < n,
    decreases term.len(),
{
    if term.len() > 0 {
        let rest = term.drop_last();
        lemma_without_var_vars(rest, i, n);
        assert forall|j: int| 0 <= j < rest.len() implies (#[trigger] rest[j]).0 < n by {
            assert(rest[j] == term[j]);
        }
        let w = without_var(term, i);
        let wr = without_var(rest, i);
        assert(term.last().0 < n);
        assert forall|j: int| 0 <= j < w.len() implies (#[trigger] w[j]).0 < n by {
            if term.last().0 != i && j == wr.len() {
                assert(w[j] == term.last());
            } else {
                assert(w[j] == wr[j]);
            }
        }
    }
}

} // verus!

verus! {

// ================================================================================
// The rounds.
// ================================================================================

/// The challenges so far, then v at the round's variable, then the point x of {0,1}^h.
pub open spec fn round_point(rs: Seq<int>, v: int, x: int, h: nat) -> Seq<int> {
    rs.push(v) + hypercube_point(x, h)
}

/// The polynomial summed over the points (rs, v, x) for x in {0,1}^h.
pub open spec fn partial_sum(terms: Seq<(int, Seq<(usize, usize)>)>, rs: Seq<int>, v: int, h: nat) -> int {
    seq_sum(Seq::new(pow2(h), |x: int| poly_value(terms, round_point(rs, v, x, h))))
}

/// The coefficients (a, b) of the round's line b + a X after the challenges rs, at
/// variable i, with h variables left after it.
pub open spec fn round_line(terms: Seq<(int, Seq<(usize, usize)>)>, rs: Seq<int>, i: usize, h: nat) -> (int, int) {
    (md(partial_sum(split_terms(terms, i, true), rs, 0, h)), md(partial_sum(split_terms(terms, i, false), rs, 0, h)))
}

/// The sum of the polynomial over {0,1}^n.
pub open spec fn hypercube_sum(terms: Seq<(int, Seq<(usize, usize)>)>, n: nat) -> int {
    seq_sum(Seq::new(pow2(n), |x: int| poly_value(terms, hypercube_point(x, n))))
}

/// Round k's line, with the first k challenges of ws.
pub open spec fn line_coeffs(terms: Seq<(int, Seq<(usize, usize)>)>, n: nat, ws: Seq<int>, k: nat) -> (int, int) {
    round_line(terms, ws.take(k as int), k as usize, (n - k - 1) as nat)
}

/// The verifier's claim at the start of round k: gamma, then the previous round's
/// line at its challenge.
pub open spec fn naive_claim(terms: Seq<(int, Seq<(usize, usize)>)>, n: nat, gamma: int, ws: Seq<int>, k: nat) -> int {
    if k == 0 {
        gamma
    } else {
        md(line_coeffs(terms, n, ws, (k - 1) as nat).1 + line_coeffs(terms, n, ws, (k - 1) as nat).0 * ws[k - 1])
    }
}

/// Round k's check: p(0) + p(1) = 2b + a equals the claim, modulo p.
pub open spec fn round_checks(terms: Seq<(int, Seq<(usize, usize)>)>, n: nat, gamma: int, ws: Seq<int>, k: nat) -> bool {
    md(2 * line_coeffs(terms, n, ws, k).1 + line_coeffs(terms, n, ws, k).0) == naive_claim(terms, n, gamma, ws, k)
}

/// The protocol's verdict with the challenges ws: every round checks, and the
/// polynomial at ws is the last claim.
pub open spec fn naive_accepts(terms: Seq<(int, Seq<(usize, usize)>)>, n: nat, gamma: int, ws: Seq<int>) -> bool {
    &&& forall|k: nat| k < n ==> #[trigger] round_checks(terms, n, gamma, ws, k)
    &&& md(poly_value(terms, ws)) == naive_claim(terms, n, gamma, ws, n)
}

/// The value of b + a X at x.
proof fn lemma_line_value(b: int, a: int, x: int)
    ensures
        upoly_value(seq![b, a], x) == b + a * x,
{
    reveal(pow);
    assert(seq![b, a].drop_last() =~= seq![b]);
    assert(seq![b].drop_last() =~= Seq::<int>::empty());
    assert(pow(x, 0) == 1);
    assert(pow(x, 1) == x * pow(x, 0));
    vstd::arithmetic::mul::lemma_mul_basics(b);
    vstd::arithmetic::mul::lemma_mul_basics(x);
    assert(upoly_value(Seq::<int>::empty(), x) == 0);
    assert(upoly_value(seq![b], x) == upoly_value(Seq::<int>::empty(), x) + b * pow(x, 0));
    assert(upoly_value(seq![b, a], x) == upoly_value(seq![b], x) + a * pow(x, 1));
}

/// The degree of a prefix of a term is at most the degree of the term.
proof fn lemma_term_degree_prefix(term: Seq<(usize, usize)>, j: int)
    requires
        0 <= j <= term.len(),
    ensures
        term_degree(term.take(j)) <= term_degree(term),
    decreases term.len() - j,
{
    if j < term.len() {
        lemma_term_degree_prefix(term, j + 1);
        assert(term.take(j + 1).drop_last() =~= term.take(j));
    } else {
        assert(term.take(j) =~= term);
    }
}

/// The total degree of a term.
fn term_degree_exec(term: &Vec<(usize, usize)>) -> (s: usize)
    requires
        term_degree(term@) <= usize::MAX,
    ensures
        s == term_degree(term@),
{
    let mut s: usize = 0;
    proof {
        assert(term@.take(0) =~= Seq::<(usize, usize)>::empty());
    }
    for j in 0..term.len()
        invariant
            term_degree(term@) <= usize::MAX,
            s == term_degree(term@.take(j as int)),
    {
        proof {
            assert(term@.take(j + 1).drop_last() =~= term@.take(j as int));
            lemma_term_degree_prefix(term@, j + 1);
        }
        s = s + term[j].1;
    }
    proof {
        assert(term@.take(term@.len() as int) =~= term@);
    }
    s
}

/// Whether the polynomial is multilinear (no term has a power above one) or
/// multivariate, with its total degree.
pub fn poly_type(poly: &SparsePoly) -> (r: PolyType)
    requires
        forall|t: int| 0 <= t < poly.terms@.len() ==> term_degree((#[trigger] poly.terms@[t]).1@) <= usize::MAX,
    ensures
        has_high_power(poly.view_terms()) ==> r == PolyType::Multivariate(poly_degree(poly.view_terms()) as usize),
        !has_high_power(poly.view_terms()) ==> r == PolyType::Multilinear,
{
    let ghost tv = poly.view_terms();
    for t in 0..poly.terms.len()
        invariant
            tv == poly.view_terms(),
            forall|t: int| 0 <= t < poly.terms@.len() ==> term_degree((#[trigger] poly.terms@[t]).1@) <= usize::MAX,
            forall|u: int| 0 <= u < t ==> term_degree((#[trigger] tv[u]).1) <= tv[u].1.len(),
    {
        let s = term_degree_exec(&poly.terms[t].1);
        if s > poly.terms[t].1.len() {
            proof {
                assert(term_degree(tv[t as int].1) > tv[t as int].1.len());
            }
            return PolyType::Multivariate(poly_degree_exec(poly));
        }
    }
    PolyType::Multilinear
}

/// The total degree of a polynomial (the largest degree of its terms).
fn poly_degree_exec(poly: &SparsePoly) -> (d: usize)
    requires
        forall|t: int| 0 <= t < poly.terms@.len() ==> term_degree((#[trigger] poly.terms@[t]).1@) <= usize::MAX,
    ensures
        d == poly_degree(poly.view_terms()),
{
    let ghost tv = poly.view_terms();
    let mut d: usize = 0;
    proof {
        assert(tv.take(0) =~= Seq::<(int, Seq<(usize, usize)>)>::empty());
    }
    for t in 0..poly.terms.len()
        invariant
            tv == poly.view_terms(),
            forall|t: int| 0 <= t < poly.terms@.len() ==> term_degree((#[trigger] poly.terms@[t]).1@) <= usize::MAX,
            d == poly_degree(tv.take(t as int)),
    {
        let s = term_degree_exec(&poly.terms[t].1);
        proof {
            assert(tv.take(t + 1).drop_last() =~= tv.take(t as int));
            assert(tv.take(t + 1).last() == tv[t as int]);
        }
        if s > d {
            d = s;
        }
    }
    proof {
        assert(tv.take(poly.terms@.len() as int) =~= tv);
    }
    d
}

/// The point of {0,1}^num_vars whose coordinate j is bit j of i.
pub fn i_to_boolean_point(i: usize, num_vars: usize) -> (point: Vec<StdFr2>)
    ensures
        point@.len() == num_vars,
        elems_canonical(point@),
        elems_values(point@) == hypercube_point(i as int, num_vars as nat),
{
    let mut n = i;
    let mut point: Vec<StdFr2> = Vec::new();
    proof {
        vstd::arithmetic::power2::lemma2_to64();
    }
    for j in 0..num_vars
        invariant
            point@.len() == j,
            elems_canonical(point@),
            n == i as int / pow2(j as nat) as int,
            forall|k: int| 0 <= k < j ==> (#[trigger] point@[k]).value() == hypercube_point(i as int, num_vars as nat)[k],
    {
        let b = fr_from_u64((n % 2) as u64);
        proof {
            vstd::arithmetic::power2::lemma_pow2_pos(j as nat);
            vstd::arithmetic::div_mod::lemma_div_denominator(i as int, pow2(j as nat) as int, 2);
            vstd::arithmetic::power2::lemma_pow2_unfold((j + 1) as nat);
            vstd::arithmetic::mul::lemma_mul_is_commutative(2, pow2(j as nat) as int);
        }
        point.push(b);
        n = n / 2;
    }
    proof {
        assert(elems_values(point@) =~= hypercube_point(i as int, num_vars as nat));
    }
    point
}

/// The coefficients (a, b) of the round's line p_i(X) = b + a X: the sums of A and B
/// over the rest of the hypercube, with the challenges in front and 0 at X_i.
pub fn p_i_coeff(current_round: usize, poly: &SparsePoly, challenges: &[StdFr2]) -> (r: (StdFr2, StdFr2))
    requires
        poly.wf(),
        current_round < poly.num_vars < usize::BITS,
        challenges@.len() >= current_round,
        elems_canonical(challenges@),
    ensures
        r.0.is_canonical(),
        r.1.is_canonical(),
        (r.0.value() as int, r.1.value() as int) == round_line(
            poly.view_terms(),
            elems_values(challenges@),
            current_round,
            (poly.num_vars - current_round - 1) as nat,
        ),
{
    let num_var_h = poly.num_vars - current_round - 1;
    let ghost h = num_var_h as nat;
    let ghost rs = elems_values(challenges@);
    let (a_x, b_x) = find_polynomial_coeff(poly, current_round);
    let ghost fa = |x: int| poly_value(split_terms(poly.view_terms(), current_round, true), round_point(rs, 0, x, h));
    let ghost fb = |x: int| poly_value(split_terms(poly.view_terms(), current_round, false), round_point(rs, 0, x, h));
    proof {
        vstd::bits::lemma_usize_pow2_no_overflow(h);
        vstd::bits::lemma_usize_shl_is_mul(1, num_var_h);
    }
    let num_points = 1usize << num_var_h;
    let zero = fr_from_u64(0);
    let mut a = fr_from_u64(0);
    let mut b = fr_from_u64(0);
    proof {
        lemma_md_canonical(0);
        assert(Seq::new(0, fa) =~= Seq::<int>::empty());
        assert(Seq::new(0, fb) =~= Seq::<int>::empty());
    }
    for i in 0..num_points
        invariant
            num_points == pow2(h),
            h == num_var_h,
            num_var_h + current_round + 1 == poly.num_vars,
            rs == elems_values(challenges@),
            challenges@.len() >= current_round,
            elems_canonical(challenges@),
            zero.value() == 0,
            a_x.wf(),
            b_x.wf(),
            a_x.num_vars == poly.num_vars,
            b_x.num_vars == poly.num_vars,
            forall|pt: Seq<int>| md(#[trigger] poly_value(a_x.view_terms(), pt)) == md(poly_value(split_terms(poly.view_terms(), current_round, true), pt)),
            forall|pt: Seq<int>| md(#[trigger] poly_value(b_x.view_terms(), pt)) == md(poly_value(split_terms(poly.view_terms(), current_round, false), pt)),
            fa == (|x: int| poly_value(split_terms(poly.view_terms(), current_round, true), round_point(rs, 0, x, h))),
            fb == (|x: int| poly_value(split_terms(poly.view_terms(), current_round, false), round_point(rs, 0, x, h))),
            a.is_canonical(),
            b.is_canonical(),
            a.value() == md(seq_sum(Seq::new(i as nat, fa))),
            b.value() == md(seq_sum(Seq::new(i as nat, fb))),
    {
        let x = i_to_boolean_point(i, num_var_h);
        let mut eval_point = vstd::slice::slice_to_vec(challenges);
        eval_point.push(zero);
        let mut x_mut = x;
        let ghost xv = x_mut@;
        eval_point.append(&mut x_mut);
        let ghost pt = round_point(rs, 0, i as int, h);
        proof {
            assert(elems_values(eval_point@) =~= pt);
            assert forall|k: int| 0 <= k < eval_point@.len() implies (#[trigger] eval_point@[k]).is_canonical() by {
                if k < challenges@.len() {
                    assert(eval_point@[k] == challenges@[k]);
                } else if k > challenges@.len() {
                    assert(eval_point@[k] == xv[k - challenges@.len() - 1]);
                }
            }
        }
        let ea = sparse_evaluate(&a_x, eval_point.as_slice());
        let eb = sparse_evaluate(&b_x, eval_point.as_slice());
        proof {
            assert(md(poly_value(a_x.view_terms(), pt)) == md(fa(i as int)));
            assert(md(poly_value(b_x.view_terms(), pt)) == md(fb(i as int)));
            lemma_seq_sum_new_step(i as nat, fa);
            lemma_seq_sum_new_step(i as nat, fb);
            lemma_fe_add_md(a.value(), ea.value(), seq_sum(Seq::new(i as nat, fa)), fa(i as int));
            lemma_fe_add_md(b.value(), eb.value(), seq_sum(Seq::new(i as nat, fb)), fb(i as int));
        }
        a = fr_add(&a, &ea);
        b = fr_add(&b, &eb);
    }
    (a, b)
}

} // verus!

verus! {

/// The prover's round polynomial p_i(X) = b + a X for a multilinear polynomial, as its
/// coefficients [b, a].
pub fn prover_i_multilinear(current_round: usize, poly: &SparsePoly, challenges: &[StdFr2]) -> (p_i: Vec<StdFr2>)
    requires
        poly.wf(),
        current_round < poly.num_vars < usize::BITS,
        challenges@.len() >= current_round,
        elems_canonical(challenges@),
    ensures
        elems_canonical(p_i@),
        elems_values(p_i@) == seq![
            round_line(poly.view_terms(), elems_values(challenges@), current_round, (poly.num_vars - current_round - 1) as nat).1,
            round_line(poly.view_terms(), elems_values(challenges@), current_round, (poly.num_vars - current_round - 1) as nat).0,
        ],
{
    let (a, b) = p_i_coeff(current_round, poly, challenges);
    let p_i = vec![b, a];
    proof {
        assert(elems_values(p_i@) =~= seq![b.value() as int, a.value() as int]);
    }
    p_i
}

/// The prover's round polynomial; only multilinear polynomials are handled.
pub fn prover_i(current_round: usize, poly: &SparsePoly, poly_type: &PolyType, challenges: &[StdFr2]) -> (p_i: Vec<StdFr2>)
    requires
        poly.wf(),
        current_round < poly.num_vars < usize::BITS,
        challenges@.len() >= current_round,
        elems_canonical(challenges@),
        *poly_type is Multilinear,
    ensures
        elems_canonical(p_i@),
        elems_values(p_i@) == seq![
            round_line(poly.view_terms(), elems_values(challenges@), current_round, (poly.num_vars - current_round - 1) as nat).1,
            round_line(poly.view_terms(), elems_values(challenges@), current_round, (poly.num_vars - current_round - 1) as nat).0,
        ],
{
    match poly_type {
        PolyType::Multilinear => prover_i_multilinear(current_round, poly, challenges),
        PolyType::Multivariate(_d) => {
            proof {
                assert(false);
            }
            Vec::new()
        },
    }
}

/// The verifier's round check: p_i(0) + p_i(1) must equal the current claim. On
/// success the round's challenge, a field element drawn by the caller, is sent.
pub fn verifier_i(p_i: &[StdFr2], current_claim: StdFr2, challenge: StdFr2) -> (r: Result<StdFr2, &'static str>)
    requires
        elems_canonical(p_i@),
        current_claim.is_canonical(),
        challenge.is_canonical(),
    ensures
        r is Ok == (crate::bigint_field::fe_add(
            md(upoly_value(elems_values(p_i@), 0)) as nat,
            md(upoly_value(elems_values(p_i@), 1)) as nat,
        ) == current_claim.value()),
        r matches Ok(w) ==> w == challenge,
{
    let zero = fr_from_u64(0);
    let one = fr_from_u64(1);
    let eval_0 = dense_evaluate(p_i, &zero);
    let eval_1 = dense_evaluate(p_i, &one);
    let check_sum = fr_add(&eval_0, &eval_1);
    proof {
        crate::bigint_field::lemma_eq_spec_value(check_sum, current_claim);
    }
    if check_sum != current_claim {
        return Err("Sumcheck verification failed: g_i(0) + g_i(1) != current_claim");
    }
    Ok(challenge)
}

/// The final check: the polynomial at the challenges must equal the final claim.
pub fn verifier_final(poly: &SparsePoly, final_claim: StdFr2, challenges: &[StdFr2]) -> (r: bool)
    requires
        poly.wf(),
        challenges@.len() >= poly.num_vars,
        elems_canonical(challenges@),
        final_claim.is_canonical(),
    ensures
        r == (md(poly_value(poly.view_terms(), elems_values(challenges@))) == final_claim.value()),
{
    let final_evaluation = sparse_evaluate(poly, challenges);
    proof {
        crate::bigint_field::lemma_eq_spec_value(final_evaluation, final_claim);
    }
    final_evaluation == final_claim
}

/// Round `current_round` of the protocol: below the number of variables, the prover's
/// line is checked against the claim and, if it passes, the challenge `draw` is
/// recorded and the claim becomes the line at it; at the number of variables, the
/// final check.
pub fn sc_protocol_round(
    current_round: usize,
    poly: &SparsePoly,
    poly_type: &PolyType,
    current_claim: &mut StdFr2,
    challenges: &mut Vec<StdFr2>,
    draw: StdFr2,
) -> (r: bool)
    requires
        draw.is_canonical(),
        poly.wf(),
        poly.num_vars < usize::BITS,
        current_round <= poly.num_vars,
        current_round < poly.num_vars ==> *poly_type is Multilinear,
        old(challenges)@.len() >= current_round,
        old(challenges)@.len() >= poly.num_vars || current_round < poly.num_vars,
        elems_canonical(old(challenges)@),
        old(current_claim).is_canonical(),
    ensures
        final(current_claim).is_canonical(),
        elems_canonical(final(challenges)@),
        current_round < poly.num_vars ==> {
            let line = round_line(
                poly.view_terms(),
                elems_values(old(challenges)@),
                current_round,
                (poly.num_vars - current_round - 1) as nat,
            );
            &&& r == (md(2 * line.1 + line.0) == old(current_claim).value())
            &&& r ==> elems_values(final(challenges)@) == elems_values(old(challenges)@).push(draw.value() as int)
                && final(current_claim).value() == md(line.1 + line.0 * draw.value())
            &&& !r ==> final(challenges)@ == old(challenges)@ && *final(current_claim) == *old(current_claim)
        },
        current_round == poly.num_vars ==> r == (md(poly_value(poly.view_terms(), elems_values(old(challenges)@)))
            == old(current_claim).value()) && final(challenges)@ == old(challenges)@ && *final(current_claim)
            == *old(current_claim),
{
    if current_round < poly.num_vars {
        let p_i = prover_i(current_round, poly, poly_type, challenges.as_slice());
        let ghost line = round_line(
            poly.view_terms(),
            elems_values(challenges@),
            current_round,
            (poly.num_vars - current_round - 1) as nat,
        );
        proof {
            lemma_line_value(line.1, line.0, 0);
            lemma_line_value(line.1, line.0, 1);
            crate::field_math::lemma_md_range(line.0);
            crate::field_math::lemma_md_range(line.1);
            crate::field_math::lemma_md_idem(line.1);
            vstd::arithmetic::mul::lemma_mul_basics(line.0);
            lemma_fe_add_md(md(line.1) as nat, md(line.1 + line.0) as nat, line.1, line.1 + line.0);
        }
        let w_i = match verifier_i(p_i.as_slice(), *current_claim, draw) {
            Ok(w_i) => w_i,
            Err(_e) => {
                return false;
            },
        };
        let ghost before = challenges@;
        challenges.push(w_i);
        let next_claim = dense_evaluate(p_i.as_slice(), &w_i);
        proof {
            lemma_line_value(line.1, line.0, draw.value() as int);
            assert(elems_values(challenges@) =~= elems_values(before).push(draw.value() as int));
        }
        *current_claim = next_claim;
        true
    } else {
        verifier_final(poly, *current_claim, challenges.as_slice())
    }
}

} // verus!

verus! {

/// What the protocol needs of its polynomial: well formed, fewer variables than the
/// bits of a `usize`, and (when there is a round) no power above one, which the prover
/// does not handle.
pub open spec fn protocol_ready(poly: &SparsePoly) -> bool {
    &&& poly.wf()
    &&& poly.num_vars < usize::BITS
    &&& poly.num_vars > 0 ==> !has_high_power(poly.view_terms())
}

/// The protocol on a polynomial and a claimed sum gamma, with the verifier's challenge
/// of round i the field element draws[i] (drawn by the caller): the rounds, then the
/// final check; false at the first check that fails.
pub fn sc_protocol_with_challenges(poly: &SparsePoly, gamma: StdFr2, draws: &[StdFr2]) -> (r: bool)
    requires
        protocol_ready(poly),
        draws@.len() == poly.num_vars,
        elems_canonical(draws@),
        gamma.is_canonical(),
    ensures
        r == naive_accepts(poly.view_terms(), poly.num_vars as nat, gamma.value() as int, elems_values(draws@)),
        multilinear_terms(poly.view_terms()) && gamma.value() == md(hypercube_sum(poly.view_terms(), poly.num_vars as nat))
            ==> r,
{
    proof {
        lemma_wf_vars_below(poly);
        if multilinear_terms(poly.view_terms()) {
            lemma_naive_complete(poly.view_terms(), poly.num_vars as nat, elems_values(draws@));
        }
    }
    let ghost tv = poly.view_terms();
    let ghost n = poly.num_vars as nat;
    let ghost ws = elems_values(draws@);
    let poly_type = poly_type(poly);
    let mut challenges: Vec<StdFr2> = Vec::new();
    let mut current_claim = gamma;
    proof {
        assert(elems_values(challenges@) =~= ws.take(0));
    }
    for round in 0..poly.num_vars
        invariant
            protocol_ready(poly),
            tv == poly.view_terms(),
            n == poly.num_vars,
            ws == elems_values(draws@),
            draws@.len() == n,
            elems_canonical(draws@),
            n > 0 ==> poly_type is Multilinear,
            challenges@.len() == round,
            elems_canonical(challenges@),
            elems_values(challenges@) == ws.take(round as int),
            current_claim.is_canonical(),
            current_claim.value() == naive_claim(tv, n, gamma.value() as int, ws, round as nat),
            forall|k: nat| k < round ==> #[trigger] round_checks(tv, n, gamma.value() as int, ws, k),
            multilinear_terms(tv) && gamma.value() == md(hypercube_sum(tv, n)) ==> naive_accepts(tv, n, gamma.value() as int, ws),
    {
        let draw = draws[round];
        let ok = sc_protocol_round(round, poly, &poly_type, &mut current_claim, &mut challenges, draw);
        proof {
            assert(ws[round as int] == draw.value());
            assert(ws.take(round + 1) =~= ws.take(round as int).push(draw.value() as int));
            if !ok {
                assert(!round_checks(tv, n, gamma.value() as int, ws, round as nat));
            }
        }
        if !ok {
            return false;
        }
    }
    proof {
        assert(ws.take(n as int) =~= ws);
    }
    let unused = StdFr2::zero();
    sc_protocol_round(poly.num_vars, poly, &poly_type, &mut current_claim, &mut challenges, unused)
}

/// The protocol with the verifier's challenges drawn uniformly from the field.
pub fn sc_protocol(poly: &SparsePoly, gamma: StdFr2) -> (r: bool)
    requires
        protocol_ready(poly),
        gamma.is_canonical(),
    ensures
        exists|ws: Seq<int>|
            crate::sumcheck_model::field_point(ws) && ws.len() == poly.num_vars && r == naive_accepts(
                poly.view_terms(),
                poly.num_vars as nat,
                gamma.value() as int,
                ws,
            ),
        multilinear_terms(poly.view_terms()) && gamma.value() == md(hypercube_sum(poly.view_terms(), poly.num_vars as nat))
            ==> r,
{
    let draws = crate::sc_verifier::random_challenges(poly.num_vars);
    let r = sc_protocol_with_challenges(poly, gamma, draws.as_slice());
    proof {
        crate::sumcheck_model::lemma_field_point_of(draws@);
        assert(elems_values(draws@) == elems_values(draws@));
    }
    r
}

/// The sum of the polynomial over {0,1}^num_vars.
pub fn compute_hypercube_sum(poly: &SparsePoly) -> (sum: StdFr2)
    requires
        poly.wf(),
        poly.num_vars < usize::BITS,
    ensures
        sum.is_canonical(),
        sum.value() == md(hypercube_sum(poly.view_terms(), poly.num_vars as nat)),
{
    let ghost n = poly.num_vars as nat;
    let ghost f = |x: int| poly_value(poly.view_terms(), hypercube_point(x, n));
    proof {
        vstd::bits::lemma_usize_pow2_no_overflow(n);
        vstd::bits::lemma_usize_shl_is_mul(1, poly.num_vars);
        lemma_md_canonical(0);
        assert(Seq::new(0, f) =~= Seq::<int>::empty());
    }
    let num_points = 1usize << poly.num_vars;
    let mut sum = fr_from_u64(0);
    for i in 0..num_points
        invariant
            poly.wf(),
            n == poly.num_vars,
            num_points == pow2(n),
            f == (|x: int| poly_value(poly.view_terms(), hypercube_point(x, n))),
            sum.is_canonical(),
            sum.value() == md(seq_sum(Seq::new(i as nat, f))),
    {
        let point = i_to_boolean_point(i, poly.num_vars);
        let e = sparse_evaluate(poly, point.as_slice());
        proof {
            lemma_seq_sum_new_step(i as nat, f);
            lemma_fe_add_md(sum.value(), e.value(), seq_sum(Seq::new(i as nat, f)), f(i as int));
        }
        sum = fr_add(&sum, &e);
    }
    sum
}

/// The evaluations of the polynomial over {0,1}^num_vars, point i having bit j of i
/// as coordinate j.
pub fn generate_evaluations_from_poly(poly: &SparsePoly) -> (evaluations: Vec<StdFr2>)
    requires
        poly.wf(),
        poly.num_vars < usize::BITS,
    ensures
        evaluations@.len() == pow2(poly.num_vars as nat),
        elems_canonical(evaluations@),
        forall|i: int| 0 <= i < evaluations@.len() ==> (#[trigger] evaluations@[i]).value() == md(
            poly_value(poly.view_terms(), hypercube_point(i, poly.num_vars as nat)),
        ),
{
    let num_vars = poly.num_vars;
    proof {
        vstd::bits::lemma_usize_pow2_no_overflow(num_vars as nat);
        vstd::arithmetic::power2::lemma_pow2(num_vars as nat);
    }
    let total_evals = usize::pow(2, num_vars as u32);
    let mut evaluations: Vec<StdFr2> = Vec::new();
    for i in 0..total_evals
        invariant
            poly.wf(),
            num_vars == poly.num_vars,
            num_vars < usize::BITS,
            total_evals == pow2(num_vars as nat),
            evaluations@.len() == i,
            elems_canonical(evaluations@),
            forall|k: int| 0 <= k < i ==> (#[trigger] evaluations@[k]).value() == md(
                poly_value(poly.view_terms(), hypercube_point(k, num_vars as nat)),
            ),
    {
        let point = i_to_boolean_point(i, num_vars);
        evaluations.push(sparse_evaluate(poly, point.as_slice()));
    }
    evaluations
}

/// The evaluations over {0,1}^num_vars reduced to their lowest 64-bit limb.
pub fn generate_small_evaluations_from_poly(poly: &SparsePoly) -> (small: Vec<u64>)
    requires
        poly.wf(),
        poly.num_vars < usize::BITS,
    ensures
        small@.len() == pow2(poly.num_vars as nat),
        forall|i: int| 0 <= i < small@.len() ==> (#[trigger] small@[i]) == md(
            poly_value(poly.view_terms(), hypercube_point(i, poly.num_vars as nat)),
        ) % 0x1_0000_0000_0000_0000,
{
    let evaluations = generate_evaluations_from_poly(poly);
    let mut small: Vec<u64> = Vec::new();
    for i in 0..evaluations.len()
        invariant
            small@.len() == i,
            forall|k: int| 0 <= k < i ==> (#[trigger] small@[k]) == evaluations@[k].value() % 0x1_0000_0000_0000_0000,
    {
        let e = evaluations[i];
        proof {
            let x = e.0@[0];
            let k = crate::limbs::limbs_val(e.0@.skip(1));
            crate::limbs::lemma_val_split(e.0@, 1);
            assert(e.0@.take(1) =~= seq![x]);
            assert(seq![x].drop_last() =~= Seq::<u64>::empty());
            assert(crate::limbs::weight(0) == 1);
            assert(crate::limbs::weight(1) == crate::limbs::limb_base() * crate::limbs::weight(0));
            assert(crate::limbs::limbs_val(seq![x]) == crate::limbs::limbs_val(Seq::<u64>::empty()) + x * crate::limbs::weight(0));
            assert(e.value() == x + k * 0x1_0000_0000_0000_0000);
            vstd::arithmetic::mul::lemma_mul_is_commutative(k as int, 0x1_0000_0000_0000_0000);
            vstd::arithmetic::div_mod::lemma_mod_multiples_vanish(k as int, x as int, 0x1_0000_0000_0000_0000);
            vstd::arithmetic::div_mod::lemma_small_mod(x as nat, 0x1_0000_0000_0000_0000);
            assert(e.value() % 0x1_0000_0000_0000_0000 == x);
        }
        small.push(e.0[0]);
    }
    small
}

} // verus!

verus! {

// ================================================================================
// Completeness.
// ================================================================================

/// In the term every variable appears once, with power one.
pub open spec fn term_multilinear(term: Seq<(usize, usize)>) -> bool {
    &&& forall|j: int| 0 <= j < term.len() ==> (#[trigger] term[j]).1 == 1
    &&& forall|a: int, b: int| 0 <= a < b < term.len() ==> (#[trigger] term[a]).0 != (#[trigger] term[b]).0
}

/// Every term is multilinear.
pub open spec fn multilinear_terms(terms: Seq<(int, Seq<(usize, usize)>)>) -> bool {
    forall|t: int| 0 <= t < terms.len() ==> term_multilinear(#[trigger] terms[t].1)
}

/// Every variable of every term is below n.
pub open spec fn vars_below(terms: Seq<(int, Seq<(usize, usize)>)>, n: nat) -> bool {
    forall|t: int, j: int| 0 <= t < terms.len() && 0 <= j < terms[t].1.len() ==> (#[trigger] terms[t].1[j]).0 < n
}

/// No term mentions variable i.
pub open spec fn free_of(terms: Seq<(int, Seq<(usize, usize)>)>, i: usize) -> bool {
    forall|t: int| 0 <= t < terms.len() ==> !has_var(#[trigger] terms[t].1, i)
}

proof fn lemma_term_multilinear_prefix(term: Seq<(usize, usize)>)
    requires
        term.len() > 0,
        term_multilinear(term),
    ensures
        term_multilinear(term.drop_last()),
        !has_var(term.drop_last(), term.last().0),
{
    let t = term.drop_last();
    assert forall|j: int| 0 <= j < t.len() implies (#[trigger] t[j]).1 == 1 by {
        assert(t[j] == term[j]);
    }
    assert forall|a: int, b: int| 0 <= a < b < t.len() implies (#[trigger] t[a]).0 != (#[trigger] t[b]).0 by {
        assert(t[a] == term[a]);
        assert(t[b] == term[b]);
    }
    if has_var(t, term.last().0) {
        let j = choose|j: int| 0 <= j < t.len() && (#[trigger] t[j]).0 == term.last().0;
        assert(term[j] == t[j]);
        assert(term[j].0 != term[term.len() - 1].0);
    }
}

/// A term without variable i is unchanged by removing it.
proof fn lemma_without_var_id(term: Seq<(usize, usize)>, i: usize)
    requires
        !has_var(term, i),
    ensures
        without_var(term, i) == term,
    decreases term.len(),
{
    if term.len() > 0 {
        let t = term.drop_last();
        if has_var(t, i) {
            let j = choose|j: int| 0 <= j < t.len() && (#[trigger] t[j]).0 == i;
            assert(term[j] == t[j]);
        }
        lemma_without_var_id(t, i);
        assert(term.last() == term[term.len() - 1]);
        assert(t.push(term.last()) =~= term);
    }
}

/// Removing variable i leaves a term free of it.
proof fn lemma_without_var_free(term: Seq<(usize, usize)>, i: usize)
    ensures
        !has_var(without_var(term, i), i),
    decreases term.len(),
{
    if term.len() > 0 {
        let t = term.drop_last();
        lemma_without_var_free(t, i);
        let w = without_var(term, i);
        let wr = without_var(t, i);
        if has_var(w, i) {
            let j = choose|j: int| 0 <= j < w.len() && (#[trigger] w[j]).0 == i;
            if term.last().0 != i && j == wr.len() {
                assert(w[j] == term.last());
            } else {
                assert(w[j] == wr[j]);
            }
        }
    }
}

/// A multilinear term mentioning X_i is X_i times the rest.
proof fn lemma_term_split(term: Seq<(usize, usize)>, i: usize, pt: Seq<int>)
    requires
        term_multilinear(term),
        has_var(term, i),
    ensures
        term_value(term, pt) == pt[i as int] * term_value(without_var(term, i), pt),
    decreases term.len(),
{
    let t = term.drop_last();
    let last = term.last();
    lemma_term_multilinear_prefix(term);
    assert(last == term[term.len() - 1]);
    assert(last.1 == 1);
    vstd::arithmetic::power::lemma_pow1(pt[last.0 as int]);
    if last.0 == i {
        lemma_without_var_id(t, i);
        vstd::arithmetic::mul::lemma_mul_is_commutative(term_value(t, pt), pt[i as int]);
    } else {
        let j = choose|j: int| 0 <= j < term.len() && (#[trigger] term[j]).0 == i;
        assert(j < term.len() - 1);
        assert(t[j] == term[j]);
        lemma_term_split(t, i, pt);
        let p = pt[last.0 as int];
        let rest = term_value(without_var(t, i), pt);
        assert(without_var(term, i) == without_var(t, i).push(last));
        assert(without_var(t, i).push(last).drop_last() =~= without_var(t, i));
        assert(term_value(without_var(term, i), pt) == rest * p);
        assert((pt[i as int] * rest) * p == pt[i as int] * (rest * p)) by (nonlinear_arith);
    }
}

/// A multilinear polynomial is X_i A + B, A and B from `split_terms`.
proof fn lemma_poly_split(terms: Seq<(int, Seq<(usize, usize)>)>, i: usize, pt: Seq<int>)
    requires
        multilinear_terms(terms),
    ensures
        poly_value(terms, pt) == pt[i as int] * poly_value(split_terms(terms, i, true), pt) + poly_value(
            split_terms(terms, i, false),
            pt,
        ),
        free_of(split_terms(terms, i, true), i),
        free_of(split_terms(terms, i, false), i),
    decreases terms.len(),
{
    if terms.len() == 0 {
        vstd::arithmetic::mul::lemma_mul_basics(pt[i as int]);
    } else {
        let rest = terms.drop_last();
        let t = terms.last();
        assert(t == terms[terms.len() - 1]);
        assert forall|u: int| 0 <= u < rest.len() implies term_multilinear(#[trigger] rest[u].1) by {
            assert(rest[u] == terms[u]);
        }
        lemma_poly_split(rest, i, pt);
        let sa = split_terms(rest, i, true);
        let sb = split_terms(rest, i, false);
        let a = poly_value(sa, pt);
        let b = poly_value(sb, pt);
        if has_var(t.1, i) {
            lemma_term_split(t.1, i, pt);
            lemma_without_var_free(t.1, i);
            let e = (t.0, without_var(t.1, i));
            assert(split_terms(terms, i, true) == sa.push(e));
            assert(sa.push(e).drop_last() =~= sa);
            assert(poly_value(sa.push(e), pt) == a + t.0 * term_value(without_var(t.1, i), pt));
            let x = pt[i as int];
            let tw = term_value(without_var(t.1, i), pt);
            assert(t.0 * (x * tw) == x * (t.0 * tw)) by (nonlinear_arith);
            assert(x * (a + t.0 * tw) == x * a + x * (t.0 * tw)) by (nonlinear_arith);
            assert forall|u: int| 0 <= u < sa.push(e).len() implies !has_var(#[trigger] sa.push(e)[u].1, i) by {
                if u < sa.len() {
                    assert(sa.push(e)[u] == sa[u]);
                }
            }
        } else {
            let e = (t.0, t.1);
            assert(split_terms(terms, i, false) == sb.push(e));
            assert(sb.push(e).drop_last() =~= sb);
            assert forall|u: int| 0 <= u < sb.push(e).len() implies !has_var(#[trigger] sb.push(e)[u].1, i) by {
                if u < sb.len() {
                    assert(sb.push(e)[u] == sb[u]);
                }
            }
        }
    }
}

/// A term free of variable i does not see coordinate i of the point.
proof fn lemma_term_free(term: Seq<(usize, usize)>, i: usize, p1: Seq<int>, p2: Seq<int>)
    requires
        !has_var(term, i),
        forall|j: int| 0 <= j < term.len() ==> (#[trigger] term[j]).0 < p1.len(),
        p1.len() == p2.len(),
        forall|j: int| 0 <= j < p1.len() && j != i ==> p1[j] == p2[j],
    ensures
        term_value(term, p1) == term_value(term, p2),
    decreases term.len(),
{
    if term.len() > 0 {
        let t = term.drop_last();
        if has_var(t, i) {
            let j = choose|j: int| 0 <= j < t.len() && (#[trigger] t[j]).0 == i;
            assert(term[j] == t[j]);
        }
        assert forall|j: int| 0 <= j < t.len() implies (#[trigger] t[j]).0 < p1.len() by {
            assert(t[j] == term[j]);
        }
        lemma_term_free(t, i, p1, p2);
        assert(term.last() == term[term.len() - 1]);
    }
}

/// A polynomial free of variable i does not see coordinate i of the point.
proof fn lemma_poly_free(terms: Seq<(int, Seq<(usize, usize)>)>, i: usize, p1: Seq<int>, p2: Seq<int>)
    requires
        free_of(terms, i),
        vars_below(terms, p1.len()),
        p1.len() == p2.len(),
        forall|j: int| 0 <= j < p1.len() && j != i ==> p1[j] == p2[j],
    ensures
        poly_value(terms, p1) == poly_value(terms, p2),
    decreases terms.len(),
{
    if terms.len() > 0 {
        let rest = terms.drop_last();
        assert forall|u: int| 0 <= u < rest.len() implies !has_var(#[trigger] rest[u].1, i) by {
            assert(rest[u] == terms[u]);
        }
        assert forall|u: int, j: int| 0 <= u < rest.len() && 0 <= j < rest[u].1.len() implies (#[trigger] rest[u].1[j]).0 < p1.len() by {
            assert(rest[u] == terms[u]);
        }
        lemma_poly_free(rest, i, p1, p2);
        let t = terms.last();
        assert(t == terms[terms.len() - 1]);
        assert forall|j: int| 0 <= j < t.1.len() implies (#[trigger] t.1[j]).0 < p1.len() by {
            assert(terms[terms.len() - 1].1[j] == t.1[j]);
        }
        lemma_term_free(t.1, i, p1, p2);
    }
}

} // verus!

verus! {

/// The split terms keep their variables below n.
proof fn lemma_split_vars(terms: Seq<(int, Seq<(usize, usize)>)>, i: usize, with_var: bool, n: nat)
    requires
        vars_below(terms, n),
    ensures
        vars_below(split_terms(terms, i, with_var), n),
    decreases terms.len(),
{
    if terms.len() > 0 {
        let rest = terms.drop_last();
        assert forall|u: int, j: int| 0 <= u < rest.len() && 0 <= j < rest[u].1.len() implies (#[trigger] rest[u].1[j]).0 < n by {
            assert(rest[u] == terms[u]);
        }
        lemma_split_vars(rest, i, with_var, n);
        let t = terms.last();
        assert(t == terms[terms.len() - 1]);
        assert forall|j: int| 0 <= j < t.1.len() implies (#[trigger] t.1[j]).0 < n by {
            assert(terms[terms.len() - 1].1[j] == t.1[j]);
        }
        lemma_without_var_vars(t.1, i, n);
        let s = split_terms(terms, i, with_var);
        let sr = split_terms(rest, i, with_var);
        assert forall|u: int, j: int| 0 <= u < s.len() && 0 <= j < s[u].1.len() implies (#[trigger] s[u].1[j]).0 < n by {
            if u < sr.len() {
                assert(s[u] == sr[u]);
            }
        }
    }
}

/// Bit 0 of 2x + v is v, and the other bits are those of x.
proof fn lemma_hypercube_double(x: int, v: int, h: nat)
    requires
        x >= 0,
        0 <= v <= 1,
    ensures
        hypercube_point(2 * x + v, h + 1) == seq![v] + hypercube_point(x, h),
{
    let l = hypercube_point(2 * x + v, h + 1);
    let r = seq![v] + hypercube_point(x, h);
    assert forall|j: int| 0 <= j < h + 1 implies #[trigger] l[j] == r[j] by {
        vstd::arithmetic::power2::lemma2_to64();
        if j == 0 {
            assert(pow2(0) == 1);
            assert((2 * x + v) / 1 == 2 * x + v);
            assert((2 * x + v) % 2 == v) by (nonlinear_arith)
                requires
                    0 <= v <= 1,
                    x >= 0,
            ;
        } else {
            let p = pow2((j - 1) as nat) as int;
            vstd::arithmetic::power2::lemma_pow2_unfold(j as nat);
            vstd::arithmetic::power2::lemma_pow2_pos((j - 1) as nat);
            vstd::arithmetic::div_mod::lemma_div_denominator(2 * x + v, 2, p);
            assert((2 * x + v) / 2 == x) by (nonlinear_arith)
                requires
                    0 <= v <= 1,
                    x >= 0,
            ;
            assert(r[j] == hypercube_point(x, h)[j - 1]);
            assert(pow2(j as nat) as int == 2 * p);
        }
    }
    assert(l =~= r);
}

/// sum (u f + w g) = u sum f + w sum g.
proof fn lemma_sum_lin(n: nat, f: spec_fn(int) -> int, g: spec_fn(int) -> int, u: int, w: int)
    ensures
        seq_sum(Seq::new(n, |x: int| u * f(x) + w * g(x))) == u * seq_sum(Seq::new(n, f)) + w * seq_sum(Seq::new(n, g)),
    decreases n,
{
    if n == 0 {
        assert(Seq::new(0, |x: int| u * f(x) + w * g(x)) =~= Seq::<int>::empty());
        assert(Seq::new(0, f) =~= Seq::<int>::empty());
        assert(Seq::new(0, g) =~= Seq::<int>::empty());
        vstd::arithmetic::mul::lemma_mul_basics(u);
        vstd::arithmetic::mul::lemma_mul_basics(w);
    } else {
        let m = (n - 1) as nat;
        lemma_sum_lin(m, f, g, u, w);
        lemma_seq_sum_new_step(m, |x: int| u * f(x) + w * g(x));
        lemma_seq_sum_new_step(m, f);
        lemma_seq_sum_new_step(m, g);
        let sf = seq_sum(Seq::new(m, f));
        let sg = seq_sum(Seq::new(m, g));
        assert(u * (sf + f(m as int)) + w * (sg + g(m as int)) == u * sf + w * sg + (u * f(m as int) + w * g(m as int))) by (nonlinear_arith);
    }
}

/// The polynomial summed over the points whose first k coordinates are the first k
/// challenges, the others ranging over {0,1}^(n-k).
pub open spec fn suffix_sum(terms: Seq<(int, Seq<(usize, usize)>)>, ws: Seq<int>, n: nat, k: nat) -> int {
    seq_sum(Seq::new(pow2((n - k) as nat), |x: int| poly_value(terms, ws.take(k as int) + hypercube_point(x, (n - k) as nat))))
}

/// Round k with an honest line: p(0) + p(1) is the sum over the remaining hypercube,
/// and the line at the challenge is the sum with one more coordinate fixed.
proof fn lemma_naive_round(terms: Seq<(int, Seq<(usize, usize)>)>, n: nat, ws: Seq<int>, k: nat)
    requires
        multilinear_terms(terms),
        vars_below(terms, n),
        ws.len() == n,
        k < n <= usize::MAX,
    ensures
        md(2 * line_coeffs(terms, n, ws, k).1 + line_coeffs(terms, n, ws, k).0) == md(suffix_sum(terms, ws, n, k)),
        md(line_coeffs(terms, n, ws, k).1 + line_coeffs(terms, n, ws, k).0 * ws[k as int]) == md(suffix_sum(terms, ws, n, k + 1)),
{
    let h = (n - k - 1) as nat;
    let rs = ws.take(k as int);
    let ta = split_terms(terms, k as usize, true);
    let tb = split_terms(terms, k as usize, false);
    let fa = |x: int| poly_value(ta, round_point(rs, 0, x, h));
    let fb = |x: int| poly_value(tb, round_point(rs, 0, x, h));
    let fk = |x: int| poly_value(terms, rs + hypercube_point(x, (n - k) as nat));
    let fk1 = |x: int| poly_value(terms, ws.take((k + 1) as int) + hypercube_point(x, h));
    let r = ws[k as int];
    lemma_split_vars(terms, k as usize, true, n);
    lemma_split_vars(terms, k as usize, false, n);
    // Each point: the polynomial is X_k A + B, and A, B do not see X_k.
    assert forall|x: int| #![trigger fb(x)] 0 <= x < pow2(h) implies fk(2 * x) == fb(x) && fk(2 * x + 1) == fa(x) + fb(x) && fk1(x)
        == r * fa(x) + fb(x) by {
        let p0 = round_point(rs, 0, x, h);
        let p1 = round_point(rs, 1, x, h);
        let pr = round_point(rs, r, x, h);
        lemma_hypercube_double(x, 0, h);
        lemma_hypercube_double(x, 1, h);
        assert(rs + hypercube_point(2 * x, (n - k) as nat) =~= p0);
        assert(rs + hypercube_point(2 * x + 1, (n - k) as nat) =~= p1);
        assert(ws.take((k + 1) as int) + hypercube_point(x, h) =~= pr);
        assert forall|j: int| 0 <= j < p1.len() && j != k implies p1[j] == p0[j] && pr[j] == p0[j] by {
            if j < k {
                assert(p1[j] == rs[j]);
                assert(p0[j] == rs[j]);
                assert(pr[j] == rs[j]);
            } else {
                assert(p1[j] == hypercube_point(x, h)[j - k - 1]);
                assert(p0[j] == hypercube_point(x, h)[j - k - 1]);
                assert(pr[j] == hypercube_point(x, h)[j - k - 1]);
            }
        }
        assert(p0[k as int] == 0 && p1[k as int] == 1 && pr[k as int] == r);
        lemma_poly_split(terms, k as usize, p0);
        lemma_poly_split(terms, k as usize, p1);
        lemma_poly_split(terms, k as usize, pr);
        lemma_poly_free(ta, k as usize, p1, p0);
        lemma_poly_free(tb, k as usize, p1, p0);
        lemma_poly_free(ta, k as usize, pr, p0);
        lemma_poly_free(tb, k as usize, pr, p0);
        vstd::arithmetic::mul::lemma_mul_basics(poly_value(ta, p0));
        vstd::arithmetic::mul::lemma_mul_basics(poly_value(ta, p1));
    }
    // The sums.
    vstd::arithmetic::power2::lemma_pow2_unfold((n - k) as nat);
    lemma_sum_even_odd(pow2(h), fk);
    assert(Seq::new(pow2(h), |x: int| fk(2 * x)) =~= Seq::new(pow2(h), |x: int| 0 * fa(x) + 1 * fb(x)));
    assert(Seq::new(pow2(h), |x: int| fk(2 * x + 1)) =~= Seq::new(pow2(h), |x: int| 1 * fa(x) + 1 * fb(x)));
    assert(Seq::new(pow2(h), fk1) =~= Seq::new(pow2(h), |x: int| r * fa(x) + 1 * fb(x)));
    lemma_sum_lin(pow2(h), fa, fb, 0, 1);
    lemma_sum_lin(pow2(h), fa, fb, 1, 1);
    lemma_sum_lin(pow2(h), fa, fb, r, 1);
    let sa = seq_sum(Seq::new(pow2(h), fa));
    let sb = seq_sum(Seq::new(pow2(h), fb));
    vstd::arithmetic::mul::lemma_mul_basics(sa);
    vstd::arithmetic::mul::lemma_mul_basics(sb);
    assert(Seq::new(pow2((n - k) as nat), fk) == Seq::new(pow2((n - k) as nat), |x: int| poly_value(terms, ws.take(k as int) + hypercube_point(x, (n - k) as nat))));
    assert(suffix_sum(terms, ws, n, k) == 2 * sb + sa);
    assert((n - (k + 1)) as nat == h);
    assert(Seq::new(pow2(h), fk1) == Seq::new(pow2(h), |x: int| poly_value(terms, ws.take((k + 1) as int) + hypercube_point(x, h))));
    assert(suffix_sum(terms, ws, n, k + 1) == r * sa + sb);
    // Reduced.
    assert(line_coeffs(terms, n, ws, k) == (md(sa), md(sb)));
    crate::field_math::lemma_md_mul(2, sb);
    crate::field_math::lemma_md_add(2 * sb, sa);
    crate::field_math::lemma_md_add(2 * md(sb), sa);
    crate::field_math::lemma_md_add(2 * sb, md(sa));
    crate::field_math::lemma_md_mul(sa, r);
    crate::field_math::lemma_md_add(sb, sa * r);
    crate::field_math::lemma_md_add(md(sb), sa * r);
    crate::field_math::lemma_md_add(sb, md(sa) * r);
    crate::field_math::lemma_md_add(md(sb), md(sa) * r);
    crate::field_math::lemma_md_add(md(sb), md(sa * r));
    vstd::arithmetic::mul::lemma_mul_is_commutative(sa, r);
}

} // verus!

verus! {

/// With the true sum as gamma, every claim is the sum over the remaining hypercube.
proof fn lemma_naive_claims(terms: Seq<(int, Seq<(usize, usize)>)>, n: nat, ws: Seq<int>, k: nat)
    requires
        multilinear_terms(terms),
        vars_below(terms, n),
        ws.len() == n,
        k <= n <= usize::MAX,
    ensures
        naive_claim(terms, n, md(hypercube_sum(terms, n)), ws, k) == md(suffix_sum(terms, ws, n, k)),
    decreases k,
{
    if k == 0 {
        assert forall|x: int| #![trigger hypercube_point(x, n)] ws.take(0) + hypercube_point(x, n) == hypercube_point(x, n) by {
            assert(ws.take(0) + hypercube_point(x, n) =~= hypercube_point(x, n));
        }
        assert(Seq::new(pow2(n), |x: int| poly_value(terms, ws.take(0) + hypercube_point(x, n))) =~= Seq::new(
            pow2(n),
            |x: int| poly_value(terms, hypercube_point(x, n)),
        ));
    } else {
        lemma_naive_round(terms, n, ws, (k - 1) as nat);
    }
}

/// Completeness of the protocol: on a multilinear polynomial whose variables are below
/// n, the true sum over {0,1}^n is accepted, whatever the challenges.
pub proof fn lemma_naive_complete(terms: Seq<(int, Seq<(usize, usize)>)>, n: nat, ws: Seq<int>)
    requires
        multilinear_terms(terms),
        vars_below(terms, n),
        ws.len() == n,
        n <= usize::MAX,
    ensures
        naive_accepts(terms, n, md(hypercube_sum(terms, n)), ws),
{
    let gamma = md(hypercube_sum(terms, n));
    assert forall|k: nat| k < n implies #[trigger] round_checks(terms, n, gamma, ws, k) by {
        lemma_naive_round(terms, n, ws, k);
        lemma_naive_claims(terms, n, ws, k);
    }
    lemma_naive_claims(terms, n, ws, n);
    vstd::arithmetic::power2::lemma2_to64();
    assert(pow2(0) == 1);
    assert(ws.take(n as int) + hypercube_point(0, 0) =~= ws);
    let f = |x: int| poly_value(terms, ws.take(n as int) + hypercube_point(x, (n - n) as nat));
    assert(f(0) == poly_value(terms, ws));
    lemma_seq_sum_new_step(0, f);
    assert(Seq::new(0, f) =~= Seq::<int>::empty());
    assert(suffix_sum(terms, ws, n, n) == seq_sum(Seq::new(1, f)));
}

/// The coefficient and variable conditions of the polynomial, as the law states them.
proof fn lemma_wf_vars_below(poly: &SparsePoly)
    requires
        poly.wf(),
    ensures
        vars_below(poly.view_terms(), poly.num_vars as nat),
{
    let tv = poly.view_terms();
    assert forall|t: int, j: int| 0 <= t < tv.len() && 0 <= j < tv[t].1.len() implies (#[trigger] tv[t].1[j]).0 < poly.num_vars by {
        assert(tv[t].1 == poly.terms@[t].1@);
        assert(poly.terms@[t].1@[j] == tv[t].1[j]);
    }
}

} // verus!
