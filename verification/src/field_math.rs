//! The integer model of the field computations: sums and products of integer
//! sequences, reduction modulo p, and how the limb-level field operations agree
//! with integer arithmetic followed by one reduction.
use crate::bigint_field::{fe_add, fe_mul, fe_sub, modulus, modulus_int, Limbs};
use crate::limbs::{lemma_val_prefixes, lemma_val_take_all, lemma_weight_small, limbs_val};
use vstd::arithmetic::div_mod::*;
use vstd::arithmetic::mul::*;
use vstd::prelude::*;

verus! {

/// The inverse of 2 modulo p, (p + 1) / 2, little-endian.
pub const HALF: Limbs = [
    9223372034707292161u64,
    12240451741123816959u64,
    1845609449319885826u64,
    4176758429732224676u64,
];

/// The inverse of 2 modulo p, as a number: 2 (p + 1) / 2 = p + 1.
pub open spec fn half_inv() -> nat {
    26217937587563095239723870254092982918845276250263818911301829349969290592257nat
}

/// The limbs of `HALF` hold the inverse of 2, which is canonical and doubles to p + 1.
pub proof fn lemma_half_val()
    ensures
        limbs_val(HALF@) == half_inv(),
        half_inv() < modulus(),
        2 * half_inv() == modulus() + 1,
{
    lemma_weight_small();
    lemma_val_prefixes(HALF@);
    lemma_val_take_all(HALF@);
}


/// Reduction of an integer modulo p, into [0, p).
pub open spec fn md(x: int) -> int {
    x % modulus_int()
}

/// Sum of a sequence of integers.
pub open spec fn seq_sum(s: Seq<int>) -> int
    decreases s.len(),
{
    if s.len() == 0 {
        0
    } else {
        seq_sum(s.drop_last()) + s.last()
    }
}

/// Product of a sequence of integers.
pub open spec fn seq_prod(s: Seq<int>) -> int
    decreases s.len(),
{
    if s.len() == 0 {
        1
    } else {
        seq_prod(s.drop_last()) * s.last()
    }
}

pub proof fn lemma_seq_sum_new_step(n: nat, f: spec_fn(int) -> int)
    ensures
        seq_sum(Seq::new(n + 1, f)) == seq_sum(Seq::new(n, f)) + f(n as int),
{
    assert(Seq::new(n + 1, f).drop_last() =~= Seq::new(n, f));
}

pub proof fn lemma_seq_prod_new_step(n: nat, f: spec_fn(int) -> int)
    ensures
        seq_prod(Seq::new(n + 1, f)) == seq_prod(Seq::new(n, f)) * f(n as int),
{
    assert(Seq::new(n + 1, f).drop_last() =~= Seq::new(n, f));
}

pub proof fn lemma_modulus_pos()
    ensures
        modulus_int() > 1,
        modulus() > 1,
{
}

pub proof fn lemma_md_range(x: int)
    ensures
        0 <= md(x) < modulus_int(),
{
    lemma_mod_bound(x, modulus_int());
}

/// A canonical value is its own reduction.
pub proof fn lemma_md_canonical(a: nat)
    requires
        a < modulus(),
    ensures
        md(a as int) == a,
{
    lemma_small_mod(a, modulus());
}

pub proof fn lemma_md_idem(x: int)
    ensures
        md(md(x)) == md(x),
{
    lemma_mod_twice(x, modulus_int());
}

/// Field subtraction of canonical values is integer subtraction reduced.
pub proof fn lemma_fe_sub_md(a: nat, b: nat)
    requires
        a < modulus(),
        b < modulus(),
    ensures
        fe_sub(a, b) == md(a - b),
{
    lemma_small_mod(b, modulus());
    lemma_mod_add_multiples_vanish(a - b, modulus_int());
}

/// Field multiplication of reductions is the reduction of the product.
pub proof fn lemma_fe_mul_md(a: nat, b: nat, x: int, y: int)
    requires
        a == md(x),
        b == md(y),
    ensures
        fe_mul(a, b) == md(x * y),
{
    lemma_mul_mod_noop_general(x, y, modulus_int());
}

/// Field addition of reductions is the reduction of the sum.
pub proof fn lemma_fe_add_md(a: nat, b: nat, x: int, y: int)
    requires
        a == md(x),
        b == md(y),
    ensures
        fe_add(a, b) == md(x + y),
{
    lemma_add_mod_noop(x, y, modulus_int());
}

/// Reducing any factor of a product first does not change the reduced product.
pub proof fn lemma_md_mul(x: int, y: int)
    ensures
        md(md(x) * md(y)) == md(x * y),
        md(md(x) * y) == md(x * y),
        md(x * md(y)) == md(x * y),
{
    lemma_mul_mod_noop_general(x, y, modulus_int());
}

/// Reducing any term of a sum first does not change the reduced sum.
pub proof fn lemma_md_add(x: int, y: int)
    ensures
        md(md(x) + md(y)) == md(x + y),
        md(md(x) + y) == md(x + y),
        md(x + md(y)) == md(x + y),
{
    lemma_add_mod_noop(x, y, modulus_int());
    lemma_mod_twice(y, modulus_int());
    lemma_add_mod_noop(md(x), y, modulus_int());
    lemma_add_mod_noop(x, md(y), modulus_int());
    lemma_mod_twice(x, modulus_int());
}

/// Field addition is associative.
pub proof fn lemma_fe_add_assoc(x: nat, y: nat, z: nat)
    ensures
        fe_add(fe_add(x, y), z) == fe_add(x, fe_add(y, z)),
{
    let p = modulus() as int;
    let (x, y, z) = (x as int, y as int, z as int);
    vstd::arithmetic::div_mod::lemma_add_mod_noop(x + y, z, p);
    vstd::arithmetic::div_mod::lemma_add_mod_noop(x, y + z, p);
    vstd::arithmetic::div_mod::lemma_mod_twice(x + y, p);
    vstd::arithmetic::div_mod::lemma_mod_twice(y + z, p);
    vstd::arithmetic::div_mod::lemma_mod_twice(z, p);
    vstd::arithmetic::div_mod::lemma_mod_twice(x, p);
    assert((x + y + z) % p == ((x + y) % p + z) % p);
    assert((x + (y + z)) % p == (x + (y + z) % p) % p);
}

} // verus!
