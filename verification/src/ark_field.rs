//! The field operations of arkworks' BLS12-381 scalar field `Fr`, on field elements
//! held as canonical standard-form limbs. Each function converts its arguments into
//! arkworks' representation, makes one call, and converts the result back.
use crate::bigint_field::{fe_add, fe_mul, fe_sub, modulus, StdFr2};
use crate::limbs::{limbs_val, weight};
use crate::sumcheck_model::{elems_values, mle_eval, table_values};
use ark_poly::{DenseMultilinearExtension, MultilinearExtension};
use ark_ff::{BigInteger256, MontConfig, PrimeField};
use ark_test_curves::bls12_381::{Fr, FrConfig};
use vstd::prelude::*;

verus! {

/// Addition in arkworks' `Fr` (`Add` for `Fp`): the sum modulo p.
#[verifier::external_body]
pub(crate) fn fr_add(a: &StdFr2, b: &StdFr2) -> (r: StdFr2)
    requires
        a.is_canonical(),
        b.is_canonical(),
    ensures
        r.is_canonical(),
        r.value() == fe_add(a.value(), b.value()),
{
    let x = Fr::from_bigint(BigInteger256::new(a.0)).unwrap();
    let y = Fr::from_bigint(BigInteger256::new(b.0)).unwrap();
    StdFr2((x + y).into_bigint().0)
}

/// Subtraction in arkworks' `Fr` (`Sub` for `Fp`): the difference modulo p.
#[verifier::external_body]
pub(crate) fn fr_sub(a: &StdFr2, b: &StdFr2) -> (r: StdFr2)
    requires
        a.is_canonical(),
        b.is_canonical(),
    ensures
        r.is_canonical(),
        r.value() == fe_sub(a.value(), b.value()),
{
    let x = Fr::from_bigint(BigInteger256::new(a.0)).unwrap();
    let y = Fr::from_bigint(BigInteger256::new(b.0)).unwrap();
    StdFr2((x - y).into_bigint().0)
}

/// Multiplication in arkworks' `Fr` (`Mul` for `Fp`, Montgomery multiplication): the
/// product modulo p.
#[verifier::external_body]
pub(crate) fn fr_mul(a: &StdFr2, b: &StdFr2) -> (r: StdFr2)
    requires
        a.is_canonical(),
        b.is_canonical(),
    ensures
        r.is_canonical(),
        r.value() == fe_mul(a.value(), b.value()),
{
    let x = Fr::from_bigint(BigInteger256::new(a.0)).unwrap();
    let y = Fr::from_bigint(BigInteger256::new(b.0)).unwrap();
    StdFr2((x * y).into_bigint().0)
}

/// `Field::inverse` of arkworks' `Fr`: `None` on zero, otherwise the multiplicative
/// inverse modulo p. Only that the product with the argument is 1 is stated.
#[verifier::external_body]
pub(crate) fn fr_inverse(a: &StdFr2) -> (r: Option<StdFr2>)
    requires
        a.is_canonical(),
    ensures
        r is Some == (a.value() != 0),
        r matches Some(b) ==> b.is_canonical() && fe_mul(a.value(), b.value()) == 1,
{
    let x = Fr::from_bigint(BigInteger256::new(a.0)).unwrap();
    match ark_ff::Field::inverse(&x) {
        Some(y) => Some(StdFr2(y.into_bigint().0)),
        None => None,
    }
}

/// `From<u64>` for arkworks' `Fr`: the integer itself, which is below p.
#[verifier::external_body]
pub(crate) fn fr_from_u64(x: u64) -> (r: StdFr2)
    ensures
        r.is_canonical(),
        r.value() == x,
{
    StdFr2(Fr::from(x).into_bigint().0)
}

/// `From<u128>` for arkworks' `Fr`: the integer itself, which is below p.
#[verifier::external_body]
pub(crate) fn fr_from_u128(x: u128) -> (r: StdFr2)
    ensures
        r.is_canonical(),
        r.value() == x,
{
    StdFr2(Fr::from(x).into_bigint().0)
}

/// `Fp::new` of arkworks' `Fr`: a 256-bit integer taken modulo p (by one Montgomery
/// multiplication with R^2).
#[verifier::external_body]
pub(crate) fn fr_new(limbs: [u64; 4]) -> (r: StdFr2)
    ensures
        r.is_canonical(),
        r.value() == limbs_val(limbs@) % modulus(),
{
    StdFr2(Fr::new(BigInteger256::new(limbs)).into_bigint().0)
}

/// `PrimeField::from_bigint` of arkworks' `Fr`: `Some` exactly for an integer below p,
/// which is then the value of the element.
#[verifier::external_body]
pub(crate) fn fr_from_bigint(limbs: [u64; 4]) -> (r: Option<StdFr2>)
    ensures
        r is Some == (limbs_val(limbs@) < modulus()),
        r matches Some(x) ==> x.value() == limbs_val(limbs@),
{
    match Fr::from_bigint(BigInteger256::new(limbs)) {
        Some(x) => Some(StdFr2(x.into_bigint().0)),
        None => None,
    }
}

/// arkworks' Montgomery constant R^2 mod p read as a Montgomery-form element
/// (`Fp::new_unchecked(R2)`): the element 2^256 mod p.
#[verifier::external_body]
pub(crate) fn fr_r_256() -> (r: StdFr2)
    ensures
        r.is_canonical(),
        r.value() == weight(4) % modulus(),
{
    StdFr2(Fr::new_unchecked(<FrConfig as MontConfig<4>>::R2).into_bigint().0)
}

/// `MultilinearExtension::evaluate` of ark-poly's `DenseMultilinearExtension` over `Fr`,
/// built from an evaluation table of 2^n entries: the table folded with each
/// coordinate of the point in turn, first coordinate first (`fix_variables`).
#[verifier::external_body]
pub(crate) fn mle_evaluate(evals: &[StdFr2], point: &[StdFr2]) -> (r: StdFr2)
    requires
        point@.len() < usize::BITS,
        evals@.len() == vstd::arithmetic::power2::pow2(point@.len()),
        forall|i: int| 0 <= i < evals@.len() ==> (#[trigger] evals@[i]).is_canonical(),
        forall|i: int| 0 <= i < point@.len() ==> (#[trigger] point@[i]).is_canonical(),
    ensures
        r.is_canonical(),
        r.value() == mle_eval(table_values(evals@), elems_values(point@)),
{
    let ev: Vec<Fr> = evals.iter().map(|e| Fr::from_bigint(BigInteger256::new(e.0)).unwrap()).collect();
    let pt: Vec<Fr> = point.iter().map(|e| Fr::from_bigint(BigInteger256::new(e.0)).unwrap()).collect();
    let poly = DenseMultilinearExtension::from_evaluations_vec(point.len(), ev);
    StdFr2(poly.evaluate(&pt).unwrap().into_bigint().0)
}

/// `UniformRand::rand` of arkworks' `Fr`, drawn with the thread's generator
/// (`rand::thread_rng`): an element sampled by rejection below p. Only that it is
/// canonical is stated; which element comes out rests on chance.
#[verifier::external_body]
pub(crate) fn fr_random() -> (r: StdFr2)
    ensures
        r.is_canonical(),
{
    let x: Fr = ark_ff::UniformRand::rand(&mut rand::thread_rng());
    StdFr2(x.into_bigint().0)
}

} // verus!
