//! Finite field arithmetic over the BLS12-381 scalar field, written directly on
//! plain `[u64; 4]` limbs in standard (non-Montgomery) form: addition, subtraction,
//! comparison, big-big multiplication with Barrett reduction, small-big
//! multiplication and Fermat inversion.
use crate::limbs::{limbs_val, weight, limb_base, lemma_weight_small, lemma_weight_add, lemma_weight_pos, lemma_weight_mono, lemma_val_take_step, lemma_val_take_all, lemma_val_bound, lemma_val_update, lemma_val_split, lemma_val_zero_tail, lemma_val_zeros, lemma_carry_step, lemma_u128_split, lemma_val_take_eq, lemma_val_prefixes, lemma_val_injective};
use std::cmp::Ordering;
use vstd::std_specs::cmp::PartialEqSpecImpl;
use vstd::arithmetic::div_mod::*;
use vstd::arithmetic::mul::*;
use vstd::arithmetic::power::*;
use vstd::arithmetic::power2::*;
use vstd::prelude::*;

verus! {

pub type Limbs = [u64; 4];

/// The scalar field modulus, little-endian.
pub const MODULUS: Limbs = [
    18446744069414584321u64,
    6034159408538082302u64,
    3691218898639771653u64,
    8353516859464449352u64,
];

/// mu = floor(2^512 / p), five nonzero limbs, padded to six.
pub const BARRETT_MU: [u64; 6] = [
    4788304978035696531u64,
    7279011843745230193u64,
    4086414915577876179u64,
    3841734232051169148u64,
    2u64,
    0u64,
];

/// The modulus p as a number.
pub open spec fn modulus() -> nat {
    52435875175126190479447740508185965837690552500527637822603658699938581184513nat
}

/// floor(2^512 / p) as a number.
pub open spec fn barrett_mu() -> nat {
    255699135089535202043525422716183576215815630510683217819334674386498370757523nat
}


/// The modulus as an integer.
pub open spec fn modulus_int() -> int {
    modulus() as int
}

/// Field addition on representatives.
pub open spec fn fe_add(a: nat, b: nat) -> nat {
    (a + b) % modulus()
}

/// Field subtraction on representatives.
pub open spec fn fe_sub(a: nat, b: nat) -> nat {
    ((a + modulus() - b % modulus()) as nat) % modulus()
}

/// Field multiplication on representatives.
pub open spec fn fe_mul(a: nat, b: nat) -> nat {
    (a * b) % modulus()
}

/// Field inversion as computed by Fermat's little theorem: a^(p-2) mod p.
pub open spec fn fe_inv(a: nat) -> nat {
    (pow(a as int, (modulus() - 2) as nat) % modulus_int()) as nat
}

/// A value below 2p reduces by at most one subtraction of p.
pub proof fn lemma_reduce_once(s: nat)
    requires
        s < 2 * modulus(),
    ensures
        s >= modulus() ==> s % modulus() == s - modulus(),
        s < modulus() ==> s % modulus() == s,
{
    let m = modulus();
    if s >= m {
        lemma_mod_add_multiples_vanish((s - m) as int, m as int);
        lemma_small_mod((s - m) as nat, m);
    } else {
        lemma_small_mod(s, m);
    }
}


/// Subtraction of canonical elements: the representative without and with a wrap.
pub proof fn lemma_sub_canonical(a: nat, b: nat)
    requires
        a < modulus(),
        b < modulus(),
    ensures
        a >= b ==> fe_sub(a, b) == a - b,
        a < b ==> fe_sub(a, b) == a + modulus() - b,
{
    lemma_small_mod(b, modulus());
    lemma_reduce_once((a + modulus() - b) as nat);
}

pub proof fn lemma_modulus_val()
    ensures
        limbs_val(MODULUS@) == modulus(),
        limbs_val(BARRETT_MU@) == barrett_mu(),
        barrett_mu() * modulus() <= weight(8),
        weight(8) < barrett_mu() * modulus() + modulus(),
        modulus() < weight(4),
        weight(3) < modulus(),
{
    lemma_weight_small();
    lemma_val_prefixes(MODULUS@);
    lemma_val_take_all(MODULUS@);
    lemma_val_prefixes(BARRETT_MU@);
    lemma_val_take_all(BARRETT_MU@);
    lemma_weight_add(4, 4);
}

// ================================================================================
// Step lemmas shared by the limb loops.
// ================================================================================

/// A 64x64-bit multiply-accumulate with two 64-bit addends fits in 128 bits.
pub proof fn lemma_mac_fits(x: u64, y: u64, z: u64, c: u128)
    by (nonlinear_arith)
    requires
        c < 0x1_0000_0000_0000_0000,
    ensures
        (x as int) * (y as int) + (z as int) + (c as int) <= u128::MAX,
{
    assert((x as int) * (y as int) <= (u64::MAX as int) * (u64::MAX as int));
}

/// Writing the low half of `prod` at `pos` and carrying the high half.
pub proof fn lemma_write_carry(r: Seq<u64>, pos: int, prod: u128)
    requires
        0 <= pos < r.len(),
    ensures
        limbs_val(r.update(pos, prod as u64)) + (prod >> 64u128) * weight((pos + 1) as nat)
            == limbs_val(r) + (prod - r[pos]) * weight(pos as nat),
{
    lemma_val_update(r, pos, prod as u64);
    lemma_u128_split(prod);
    lemma_carry_step(
        (prod as u64) as int,
        (prod >> 64u128) as int,
        prod as int,
        weight(pos as nat) as int,
    );
    assert(weight((pos + 1) as nat) == limb_base() * weight(pos as nat));
    lemma_mul_is_distributive_sub_other_way(weight(pos as nat) as int, prod as int, r[pos] as int);
}

/// Accumulating `x * y_j` at weight `w_i w_j` extends a row product by one limb.
pub proof fn lemma_row_extend(t: int, x: int, yt: int, yj: int, wi: int, wj: int, wij: int)
    by (nonlinear_arith)
    requires
        wij == wi * wj,
    ensures
        t + x * yt * wi + x * yj * wij == t + x * (yt + yj * wj) * wi,
{
}

/// Distributing a weight over a three-term sum.
pub proof fn lemma_mul3(x: int, y: int, z: int, w: int)
    by (nonlinear_arith)
    ensures
        (x + y + z) * w == x * w + y * w + z * w,
{
}

/// A completed row: the partial products of `x` with all of `y` add `x * val(y)` at weight `w_i`.
pub proof fn lemma_row_done(t: int, xt: int, x: int, y: int, wi: int)
    by (nonlinear_arith)
    ensures
        xt * y + x * y * wi == (xt + x * wi) * y,
{
}

/// Comparing from the most significant limb: equal tails and a smaller limb at `i`.
pub proof fn lemma_compare_from_top(a: Seq<u64>, b: Seq<u64>, iu: usize)
    requires
        a.len() == b.len(),
        iu < a.len(),
        a[iu as int] < b[iu as int],
        forall|k: int| iu < k < a.len() ==> a[k] == b[k],
    ensures
        limbs_val(a) < limbs_val(b),
{
    let i = iu as int;
    let n = a.len() as int;
    lemma_val_split(a, i + 1);
    lemma_val_split(b, i + 1);
    assert(a.skip(i + 1) =~= b.skip(i + 1));
    lemma_val_take_step(a, i);
    lemma_val_take_step(b, i);
    lemma_val_bound(a.take(i));
    let wi = weight(i as nat) as int;
    let ai = a[i] as int;
    let bi = b[i] as int;
    assert((ai + 1) * wi <= bi * wi) by {
        lemma_mul_inequality(ai + 1, bi, wi);
    }
    lemma_mul_is_distributive_add_other_way(wi, ai, 1);
}

// ================================================================================
// Raw primitives on [u64; 4].
// ================================================================================

/// Numerical comparison of two limb vectors, starting from the most significant limb.
fn raw_cmp(a: &Limbs, b: &Limbs) -> (r: Ordering)
    ensures
        (r == Ordering::Less) == (limbs_val(a@) < limbs_val(b@)),
        (r == Ordering::Equal) == (limbs_val(a@) == limbs_val(b@)),
        (r == Ordering::Greater) == (limbs_val(a@) > limbs_val(b@)),
{
    let mut i: usize = 4;
    while i > 0
        invariant
            i <= 4,
            forall|k: int| i <= k < 4 ==> a[k] == b[k],
        decreases i,
    {
        i = i - 1;
        match a[i].cmp(&b[i]) {
            Ordering::Equal => {},
            Ordering::Less => {
                proof {
                    lemma_compare_from_top(a@, b@, i);
                }
                return Ordering::Less;
            },
            Ordering::Greater => {
                proof {
                    lemma_compare_from_top(b@, a@, i);
                }
                return Ordering::Greater;
            },
        }
    }
    proof {
        assert(a@ =~= b@);
    }
    Ordering::Equal
}

/// Four-limb addition; the flag is the carry out of the top limb.
fn raw_add(a: &Limbs, b: &Limbs) -> (res: (Limbs, bool))
    ensures
        limbs_val(res.0@) + (if res.1 { weight(4) } else { 0 }) == limbs_val(a@) + limbs_val(b@),
{
    let mut r = [0u64; 4];
    let mut carry: u128 = 0;
    for i in 0..4
        invariant
            carry <= 1,
            limbs_val(r@.take(i as int)) + carry * weight(i as nat) == limbs_val(a@.take(i as int))
                + limbs_val(b@.take(i as int)),
    {
        let ghost r0 = r@;
        let ghost c0 = carry;
        let sum = (a[i] as u128) + (b[i] as u128) + carry;
        r[i] = sum as u64;
        carry = sum >> 64;
        proof {
            lemma_u128_split(sum);
            assert(r@.take(i as int) =~= r0.take(i as int));
            lemma_val_take_step(r@, i as int);
            lemma_val_take_step(a@, i as int);
            lemma_val_take_step(b@, i as int);
            lemma_carry_step(
                (sum as u64) as int,
                carry as int,
                sum as int,
                weight(i as nat) as int,
            );
            assert(weight((i + 1) as nat) == limb_base() * weight(i as nat));
            lemma_mul3(a[i as int] as int, b[i as int] as int, c0 as int, weight(i as nat) as int);
            assert(sum <= 0x1_FFFF_FFFF_FFFF_FFFF);
            assert(carry <= 1);
        }
    }
    proof {
        lemma_val_take_all(r@);
        lemma_val_take_all(a@);
        lemma_val_take_all(b@);
    }
    (r, carry != 0)
}

/// Four-limb subtraction; the flag is the borrow out of the top limb.
fn raw_sub(a: &Limbs, b: &Limbs) -> (res: (Limbs, bool))
    ensures
        limbs_val(res.0@) - (if res.1 { weight(4) } else { 0 }) == limbs_val(a@) - limbs_val(b@),
{
    let mut r = [0u64; 4];
    let mut borrow: i128 = 0;
    for i in 0..4
        invariant
            0 <= borrow <= 1,
            limbs_val(r@.take(i as int)) - borrow * weight(i as nat) == limbs_val(a@.take(i as int))
                - limbs_val(b@.take(i as int)),
    {
        let ghost r0 = r@;
        let ghost b0 = borrow;
        let diff = (a[i] as i128) - (b[i] as i128) - borrow;
        proof {
            assert(1i128 << 64 == 0x1_0000_0000_0000_0000i128) by (bit_vector);
        }
        if diff < 0 {
            r[i] = (diff + (1i128 << 64)) as u64;
            borrow = 1;
        } else {
            r[i] = diff as u64;
            borrow = 0;
        }
        proof {
            assert(1i128 << 64 == 0x1_0000_0000_0000_0000i128) by (bit_vector);
            assert(r@.take(i as int) =~= r0.take(i as int));
            lemma_val_take_step(r@, i as int);
            lemma_val_take_step(a@, i as int);
            lemma_val_take_step(b@, i as int);
            assert(r[i as int] - borrow * limb_base() == a[i as int] - b[i as int] - b0);
            lemma_carry_step(
                r[i as int] as int,
                -borrow,
                a[i as int] - b[i as int] - b0,
                weight(i as nat) as int,
            );
            assert(weight((i + 1) as nat) == limb_base() * weight(i as nat));
            lemma_mul3(a[i as int] as int, -(b[i as int] as int), -b0, weight(i as nat) as int);
            lemma_mul_unary_negation(b[i as int] as int, weight(i as nat) as int);
            lemma_mul_unary_negation(b0 as int, weight(i as nat) as int);
            lemma_mul_unary_negation(borrow as int, (limb_base() * weight(i as nat)) as int);
        }
    }
    proof {
        lemma_val_take_all(r@);
        lemma_val_take_all(a@);
        lemma_val_take_all(b@);
    }
    (r, borrow != 0)
}

/// Modular addition of two canonical elements.
fn raw_mod_add(a: &Limbs, b: &Limbs) -> (r: Limbs)
    requires
        limbs_val(a@) < modulus(),
        limbs_val(b@) < modulus(),
    ensures
        limbs_val(r@) == fe_add(limbs_val(a@), limbs_val(b@)),
        limbs_val(r@) < modulus(),
{
    proof {
        lemma_modulus_val();
        lemma_reduce_once(limbs_val(a@) + limbs_val(b@));
    }
    let (mut r, carry) = raw_add(a, b);
    proof {
        lemma_val_bound(r@);
    }
    if carry || !matches!(raw_cmp(&r, &MODULUS), Ordering::Less) {
        let (r2, borrow) = raw_sub(&r, &MODULUS);
        proof {
            lemma_val_bound(r2@);
        }
        r = r2;
    }
    r
}

/// Modular subtraction of two canonical elements.
fn raw_mod_sub(a: &Limbs, b: &Limbs) -> (r: Limbs)
    requires
        limbs_val(a@) < modulus(),
        limbs_val(b@) < modulus(),
    ensures
        limbs_val(r@) == fe_sub(limbs_val(a@), limbs_val(b@)),
        limbs_val(r@) < modulus(),
{
    proof {
        lemma_modulus_val();
        lemma_sub_canonical(limbs_val(a@), limbs_val(b@));
    }
    if matches!(raw_cmp(a, b), Ordering::Less) {
        let (a_plus_m, carry) = raw_add(a, &MODULUS);
        proof {
            lemma_val_bound(a_plus_m@);
        }
        let (r, borrow) = raw_sub(&a_plus_m, b);
        proof {
            lemma_val_bound(r@);
        }
        r
    } else {
        let (r, borrow) = raw_sub(a, b);
        proof {
            lemma_val_bound(r@);
        }
        r
    }
}

/// N x N -> 2N limb multiplication, schoolbook.
fn raw_mul_wide(a: &Limbs, b: &Limbs) -> (r: [u64; 8])
    ensures
        limbs_val(r@) == limbs_val(a@) * limbs_val(b@),
{
    let mut r = [0u64; 8];
    proof {
        lemma_val_zeros(r@);
        assert(a@.take(0).len() == 0);
        assert(limbs_val(a@.take(0)) == 0);
        lemma_mul_basics(limbs_val(b@) as int);
        assert(limbs_val(r@) == 0);
    }
    for i in 0..4
        invariant
            limbs_val(r@) == limbs_val(a@.take(i as int)) * limbs_val(b@),
            forall|k: int| i + 4 <= k < 8 ==> r[k] == 0,
    {
        let mut carry: u128 = 0;
        proof {
            assert(b@.take(0).len() == 0);
            assert(limbs_val(b@.take(0)) == 0);
            assert(i + 0 == i);
        }
        for j in 0..4
            invariant
                0 <= i < 4,
                carry < 0x1_0000_0000_0000_0000,
                limbs_val(r@) + carry * weight((i + j) as nat) == limbs_val(a@.take(i as int))
                    * limbs_val(b@) + a[i as int] * limbs_val(b@.take(j as int)) * weight(i as nat),
                forall|k: int| i + 4 <= k < 8 ==> r[k] == 0,
        {
            proof {
                lemma_mac_fits(a[i as int], b[j as int], r[(i + j) as int], carry);
            }
            let ghost r0 = r@;
            let ghost c0 = carry;
            let prod = (a[i] as u128) * (b[j] as u128) + (r[i + j] as u128) + carry;
            r[i + j] = prod as u64;
            carry = prod >> 64;
            proof {
                lemma_write_carry(r0, (i + j) as int, prod);
                assert(r@ == r0.update((i + j) as int, prod as u64));
                lemma_u128_split(prod);
                lemma_weight_add(i as nat, j as nat);
                lemma_val_take_step(b@, j as int);
                lemma_mul_is_distributive_add_other_way(weight((i + j) as nat) as int, (a[i as int] as int) * (b[j as int] as int), c0 as int);
                lemma_row_extend(
                    (limbs_val(a@.take(i as int)) * limbs_val(b@)) as int,
                    a[i as int] as int,
                    limbs_val(b@.take(j as int)) as int,
                    b[j as int] as int,
                    weight(i as nat) as int,
                    weight(j as nat) as int,
                    weight((i + j) as nat) as int,
                );
                lemma_mul_is_associative(a[i as int] as int, b[j as int] as int, weight((i + j) as nat) as int);
                assert(i + j + 1 == i + (j + 1));
            }
        }
        let ghost r0 = r@;
        r[i + 4] = carry as u64;
        proof {
            lemma_val_update(r0, (i + 4) as int, carry as u64);
            lemma_val_take_all(b@);
            lemma_val_take_step(a@, i as int);
            lemma_row_done(
                0,
                limbs_val(a@.take(i as int)) as int,
                a[i as int] as int,
                limbs_val(b@) as int,
                weight(i as nat) as int,
            );
            lemma_mul_is_associative(a[i as int] as int, limbs_val(b@) as int, weight(i as nat) as int);
            lemma_mul_is_associative(a[i as int] as int, weight(i as nat) as int, limbs_val(b@) as int);
            lemma_mul_is_commutative(limbs_val(b@) as int, weight(i as nat) as int);
        }
    }
    proof {
        lemma_val_take_all(a@);
    }
    r
}

/// Small-big multiplication: N limbs x 1 word -> (N+1) limbs.
pub(crate) fn raw_mul_small(a: &Limbs, small: u64) -> (r: [u64; 5])
    ensures
        limbs_val(r@) == limbs_val(a@) * small,
{
    let mut r = [0u64; 5];
    let mut carry: u128 = 0;
    proof {
        assert(limbs_val(a@.take(0)) == 0);
        assert(limbs_val(r@.take(0)) == 0);
        lemma_mul_basics(small as int);
    }
    for i in 0..4
        invariant
            carry < 0x1_0000_0000_0000_0000,
            limbs_val(r@.take(i as int)) + carry * weight(i as nat) == limbs_val(a@.take(i as int))
                * small,
    {
        proof {
            lemma_mac_fits(a[i as int], small, 0, carry);
        }
        let ghost r0 = r@;
        let ghost c0 = carry;
        let prod = (a[i] as u128) * (small as u128) + carry;
        r[i] = prod as u64;
        carry = prod >> 64;
        proof {
            lemma_u128_split(prod);
            assert(r@.take(i as int) =~= r0.take(i as int));
            lemma_val_take_step(r@, i as int);
            lemma_val_take_step(a@, i as int);
            lemma_carry_step(
                (prod as u64) as int,
                carry as int,
                prod as int,
                weight(i as nat) as int,
            );
            assert(weight((i + 1) as nat) == limb_base() * weight(i as nat));
            lemma_mul3((a[i as int] as int) * (small as int), c0 as int, 0, weight(i as nat) as int);
            lemma_row_done(
                0,
                limbs_val(a@.take(i as int)) as int,
                a[i as int] as int,
                small as int,
                weight(i as nat) as int,
            );
            lemma_mul_is_associative(a[i as int] as int, small as int, weight(i as nat) as int);
            lemma_mul_is_associative(a[i as int] as int, weight(i as nat) as int, small as int);
            lemma_mul_is_commutative(small as int, weight(i as nat) as int);
        }
    }
    let ghost r0 = r@;
    r[4] = carry as u64;
    proof {
        assert(r@.take(4) =~= r0.take(4));
        lemma_val_take_step(r@, 4);
        lemma_val_take_all(r@);
        lemma_val_take_all(a@);
    }
    r
}

// ================================================================================
// Pieces of the Barrett reduction tail.
// ================================================================================

/// Five-limb subtraction modulo 2^320 (the final borrow is dropped).
fn sub_low5(r1: &[u64; 5], r2: &[u64; 5]) -> (r: [u64; 5])
    ensures
        limbs_val(r@) == if limbs_val(r1@) >= limbs_val(r2@) {
            limbs_val(r1@) - limbs_val(r2@)
        } else {
            limbs_val(r1@) + weight(5) - limbs_val(r2@)
        },
{
    let mut borrow: i128 = 0;
    let mut r = [0u64; 5];
    proof {
        assert(1i128 << 64 == 0x1_0000_0000_0000_0000i128) by (bit_vector);
    }
    for i in 0..5
        invariant
            0 <= borrow <= 1,
            1i128 << 64 == 0x1_0000_0000_0000_0000i128,
            limbs_val(r@.take(i as int)) - borrow * weight(i as nat) == limbs_val(r1@.take(i as int))
                - limbs_val(r2@.take(i as int)),
    {
        let ghost s0 = r@;
        let ghost b0 = borrow;
        let diff = (r1[i] as i128) - (r2[i] as i128) - borrow;
        if diff < 0 {
            r[i] = (diff + (1i128 << 64)) as u64;
            borrow = 1;
        } else {
            r[i] = diff as u64;
            borrow = 0;
        }
        proof {
            assert(r@.take(i as int) =~= s0.take(i as int));
            lemma_val_take_step(r@, i as int);
            lemma_val_take_step(r1@, i as int);
            lemma_val_take_step(r2@, i as int);
            lemma_carry_step(
                r[i as int] as int,
                -borrow,
                r1[i as int] - r2[i as int] - b0,
                weight(i as nat) as int,
            );
            assert(weight((i + 1) as nat) == limb_base() * weight(i as nat));
            lemma_mul3(r1[i as int] as int, -(r2[i as int] as int), -b0, weight(i as nat) as int);
            lemma_mul_unary_negation(r2[i as int] as int, weight(i as nat) as int);
            lemma_mul_unary_negation(b0 as int, weight(i as nat) as int);
            lemma_mul_unary_negation(borrow as int, (limb_base() * weight(i as nat)) as int);
        }
    }
    proof {
        lemma_val_take_all(r@);
        lemma_val_take_all(r1@);
        lemma_val_take_all(r2@);
        lemma_val_bound(r@);
        lemma_val_bound(r1@);
        lemma_val_bound(r2@);
    }
    r
}

/// The low five limbs of `q3 * p`, i.e. `q3 * p mod 2^320`.
fn mul_modulus_low(q3: &[u64; 6]) -> (r2: [u64; 5])
    ensures
        limbs_val(r2@) == (limbs_val(q3@) * modulus()) % weight(5),
{
    let mut r2 = [0u64; 5];
    let ghost mut dropped: int = 0;
    proof {
        lemma_modulus_val();
        lemma_val_zeros(r2@);
        assert(limbs_val(q3@.take(0)) == 0);
        lemma_weight_small();
    }
    for i in 0..5
        invariant
            limbs_val(MODULUS@) == modulus(),
            dropped >= 0,
            limbs_val(r2@) + dropped * weight(5) == limbs_val(q3@.take(i as int)) * modulus(),
            i == 0 ==> r2[4] == 0,
    {
        if q3[i] == 0 {
            proof {
                lemma_val_take_step(q3@, i as int);
            }
        } else {
            let mut carry: u128 = 0;
            let mut j: usize = 0;
            proof {
                assert(limbs_val(MODULUS@.take(0)) == 0);
                assert(i + 0 == i);
            }
            while j < 4 && i + j < 5
                invariant
                    0 <= i < 5,
                    j <= 4,
                    i + j <= 5,
                    dropped >= 0,
                    carry < 0x1_0000_0000_0000_0000,
                    limbs_val(r2@) + carry * weight((i + j) as nat) + dropped * weight(5)
                        == limbs_val(q3@.take(i as int)) * modulus() + q3[i as int] * limbs_val(
                        MODULUS@.take(j as int),
                    ) * weight(i as nat),
                    i == 0 ==> r2[4] == 0,
                decreases 4 - j,
            {
                proof {
                    lemma_mac_fits(q3[i as int], MODULUS[j as int], r2[(i + j) as int], carry);
                }
                let ghost s0 = r2@;
                let ghost c0 = carry;
                let prod = (q3[i] as u128) * (MODULUS[j] as u128) + (r2[i + j] as u128) + carry;
                r2[i + j] = prod as u64;
                carry = prod >> 64;
                proof {
                    lemma_write_carry(s0, (i + j) as int, prod);
                    lemma_u128_split(prod);
                    lemma_weight_add(i as nat, j as nat);
                    lemma_val_take_step(MODULUS@, j as int);
                    lemma_mul_is_distributive_add_other_way(
                        weight((i + j) as nat) as int,
                        (q3[i as int] as int) * (MODULUS[j as int] as int),
                        c0 as int,
                    );
                    lemma_row_extend(
                        (limbs_val(q3@.take(i as int)) * modulus()) as int,
                        q3[i as int] as int,
                        limbs_val(MODULUS@.take(j as int)) as int,
                        MODULUS[j as int] as int,
                        weight(i as nat) as int,
                        weight(j as nat) as int,
                        weight((i + j) as nat) as int,
                    );
                    lemma_mul_is_associative(
                        q3[i as int] as int,
                        MODULUS[j as int] as int,
                        weight((i + j) as nat) as int,
                    );
                    assert(i + j + 1 == i + (j + 1));
                }
                j = j + 1;
            }
            let ghost s1 = r2@;
            if i + 4 < 5 {
                r2[i + 4] = r2[i + 4].wrapping_add(carry as u64);
                proof {
                    assert(j == 4);
                    assert(s1[4] == 0);
                    lemma_val_update(s1, 4, carry as u64);
                    lemma_val_take_all(MODULUS@);
                }
            } else {
                proof {
                    assert(i + j == 5);
                    lemma_val_split(MODULUS@, j as int);
                    lemma_weight_add(i as nat, j as nat);
                    lemma_drop_row_tail(
                        q3[i as int] as int,
                        limbs_val(MODULUS@.take(j as int)) as int,
                        limbs_val(MODULUS@.skip(j as int)) as int,
                        weight(i as nat) as int,
                        weight(j as nat) as int,
                        weight(5) as int,
                    );
                    lemma_mul3(
                        dropped,
                        carry as int,
                        q3[i as int] * limbs_val(MODULUS@.skip(j as int)),
                        weight(5) as int,
                    );
                    assert(weight((i + j) as nat) == weight(5));
                    dropped = dropped + carry + q3[i as int] * limbs_val(MODULUS@.skip(j as int));
                }
            }
            proof {
                lemma_val_take_step(q3@, i as int);
                lemma_row_done(
                    0,
                    limbs_val(q3@.take(i as int)) as int,
                    q3[i as int] as int,
                    modulus() as int,
                    weight(i as nat) as int,
                );
                lemma_mul_is_associative(q3[i as int] as int, modulus() as int, weight(i as nat) as int);
                lemma_mul_is_associative(q3[i as int] as int, weight(i as nat) as int, modulus() as int);
                lemma_mul_is_commutative(modulus() as int, weight(i as nat) as int);
            }
        }
    }
    proof {
        lemma_val_take_step(q3@, 5);
        lemma_val_take_all(q3@);
        lemma_val_bound(r2@);
        lemma_modulus_times_top(q3[5] as int, limbs_val(q3@.take(5)) as int, dropped, limbs_val(r2@) as int);
        lemma_fundamental_div_mod_converse_mod(
            (limbs_val(q3@) * modulus()) as int,
            weight(5) as int,
            dropped + q3[5] * modulus(),
            limbs_val(r2@) as int,
        );
    }
    r2
}

/// Splitting the multiplier of a row at the limb where the row stops.
pub proof fn lemma_drop_row_tail(x: int, lo: int, hi: int, wi: int, wj: int, w5: int)
    by (nonlinear_arith)
    requires
        w5 == wi * wj,
    ensures
        x * (lo + hi * wj) * wi == x * lo * wi + (x * hi) * w5,
{
}

pub proof fn lemma_modulus_times_top(top: int, low: int, dropped: int, r: int)
    by (nonlinear_arith)
    requires
        r + dropped * weight(5) == low * modulus(),
    ensures
        (low + top * weight(5)) * modulus() == (dropped + top * modulus()) * weight(5) + r,
{
}

/// Subtracting p from a five-limb value given as four limbs and a nonzero top limb.
fn sub_modulus_with_high(result: &Limbs, high: u64) -> (res: (Limbs, u64))
    requires
        high > 0,
    ensures
        limbs_val(res.0@) + res.1 * weight(4) == limbs_val(result@) + high * weight(4) - modulus(),
{
    let mut wide = [result[0], result[1], result[2], result[3], high];
    let mut borrow2: i128 = 0;
    proof {
        assert(1i128 << 64 == 0x1_0000_0000_0000_0000i128) by (bit_vector);
        lemma_modulus_val();
        assert(wide@.take(4) =~= result@);
    }
    for i in 0..4
        invariant
            0 <= borrow2 <= 1,
            1i128 << 64 == 0x1_0000_0000_0000_0000i128,
            wide[4] == high,
            forall|k: int| i <= k < 4 ==> wide[k] == result[k],
            limbs_val(wide@.take(i as int)) - borrow2 * weight(i as nat) == limbs_val(result@.take(i as int))
                - limbs_val(MODULUS@.take(i as int)),
    {
        let ghost s0 = wide@;
        let ghost b0 = borrow2;
        let diff = (wide[i] as i128) - (MODULUS[i] as i128) - borrow2;
        if diff < 0 {
            wide[i] = (diff + (1i128 << 64)) as u64;
            borrow2 = 1;
        } else {
            wide[i] = diff as u64;
            borrow2 = 0;
        }
        proof {
            assert(wide@.take(i as int) =~= s0.take(i as int));
            lemma_val_take_step(wide@, i as int);
            lemma_val_take_step(result@, i as int);
            lemma_val_take_step(MODULUS@, i as int);
            lemma_carry_step(
                wide[i as int] as int,
                -borrow2,
                result[i as int] - MODULUS[i as int] - b0,
                weight(i as nat) as int,
            );
            assert(weight((i + 1) as nat) == limb_base() * weight(i as nat));
            lemma_mul3(result[i as int] as int, -(MODULUS[i as int] as int), -b0, weight(i as nat) as int);
            lemma_mul_unary_negation(MODULUS[i as int] as int, weight(i as nat) as int);
            lemma_mul_unary_negation(b0 as int, weight(i as nat) as int);
            lemma_mul_unary_negation(borrow2 as int, (limb_base() * weight(i as nat)) as int);
        }
    }
    let ghost w0 = wide@;
    wide[4] = wide[4].wrapping_sub(borrow2 as u64);
    let res = [wide[0], wide[1], wide[2], wide[3]];
    proof {
        assert(wide@.take(4) =~= w0.take(4));
        lemma_val_take_all(result@);
        lemma_val_take_all(MODULUS@);
        assert(res@ =~= wide@.take(4));
        assert(wide[4] == high - borrow2);
        lemma_mul_is_distributive_sub_other_way(weight(4) as int, high as int, borrow2 as int);
    }
    (res, wide[4])
}

// ================================================================================
// Barrett reduction (HAC Algorithm 14.42), k = 4 limbs of 64 bits.
// ================================================================================

/// The Barrett quotient estimate q3 = floor(floor(x / b^3) * mu' / b^5), where mu' is mu
/// or falls short of it by less than `5 b^5 / q1`, never overshoots floor(x / p) and
/// falls short of it by so little that x - q3 p fits in five limbs.
pub proof fn lemma_barrett_bound(
    x: int,
    q1: int,
    q2v: int,
    d: int,
    q3: int,
    mu: int,
    p: int,
    b3: int,
    b5: int,
    b8: int,
)
    requires
        p > 0,
        b3 > 0,
        b5 > 0,
        b8 == b3 * b5,
        0 <= x < b8,
        0 <= q1,
        q1 * b3 <= x < (q1 + 1) * b3,
        0 <= d < 5 * b5,
        q2v <= q1 * mu <= q2v + d,
        q3 * b5 <= q2v < (q3 + 1) * b5,
        mu * p <= b8 < mu * p + p,
        7 * p + b3 <= b5,
    ensures
        q3 * p <= x,
        x < q3 * p + b5,
{
    assert(q1 < b5) by (nonlinear_arith)
        requires
            q1 * b3 <= x,
            x < b8,
            b8 == b3 * b5,
            b3 > 0,
    ;
    assert((q3 * p) * b5 <= x * b5) by (nonlinear_arith)
        requires
            q3 * b5 <= q2v,
            q2v <= q1 * mu,
            mu * p <= b8,
            b8 == b3 * b5,
            q1 * b3 <= x,
            q1 >= 0,
            p > 0,
            b5 > 0,
    ;
    assert(q3 * p <= x) by (nonlinear_arith)
        requires
            (q3 * p) * b5 <= x * b5,
            b5 > 0,
    ;
    assert((x - q3 * p) * b5 < (b3 + 7 * p) * b5) by (nonlinear_arith)
        requires
            x < (q1 + 1) * b3,
            q2v < (q3 + 1) * b5,
            q1 * mu <= q2v + d,
            b8 < mu * p + p,
            b8 == b3 * b5,
            0 <= q1 < b5,
            0 <= d < 5 * b5,
            p > 0,
            b5 > 0,
    ;
    assert(x - q3 * p < b3 + 7 * p) by (nonlinear_arith)
        requires
            (x - q3 * p) * b5 < (b3 + 7 * p) * b5,
            b5 > 0,
    ;
}

/// The five-limb difference of the two low halves is exactly x - q3 p.
pub proof fn lemma_barrett_sub(x: nat, q3p: nat, r1: nat, r2: nat, r: nat)
    requires
        q3p <= x < q3p + weight(5),
        r1 == x % weight(5),
        r2 == q3p % weight(5),
        r == if r1 >= r2 {
            r1 - r2
        } else {
            r1 + weight(5) - r2
        },
    ensures
        r == x - q3p,
{
    let w = weight(5) as int;
    lemma_weight_pos(5);
    lemma_sub_mod_noop(x as int, q3p as int, w);
    lemma_small_mod((x - q3p) as nat, weight(5));
    lemma_mod_bound(x as int, w);
    lemma_mod_bound(q3p as int, w);
    if r1 >= r2 {
        lemma_small_mod((r1 - r2) as nat, weight(5));
    } else {
        lemma_mod_add_multiples_vanish(r1 - r2, w);
        lemma_small_mod((r1 + w - r2) as nat, weight(5));
    }
}

/// Subtracting p does not change the residue.
pub proof fn lemma_sub_p_residue(v: int, target: nat)
    requires
        v >= modulus(),
        v % (modulus() as int) == target,
    ensures
        (v - modulus()) % (modulus() as int) == target,
{
    lemma_mod_add_multiples_vanish(v - modulus(), modulus() as int);
}

pub proof fn lemma_sub_p_residue_nat(v: nat, target: nat)
    requires
        v >= modulus(),
        v % modulus() == target,
    ensures
        (v - modulus()) % (modulus() as int) == target,
{
    lemma_sub_p_residue(v as int, target);
}

/// Removing a multiple of p does not change the residue.
pub proof fn lemma_residue_after_quotient(x: nat, q: nat, r: nat)
    requires
        r == x - q * modulus(),
    ensures
        r % modulus() == x % modulus(),
{
    lemma_mul_is_commutative(q as int, modulus() as int);
    lemma_mod_multiples_vanish(q as int, r as int, modulus() as int);
}

/// A residue below p is the reduced value.
pub proof fn lemma_residue_canonical(v: nat, x: nat)
    requires
        v < modulus(),
        v % modulus() == x % modulus(),
    ensures
        v == x % modulus(),
{
    lemma_small_mod(v, modulus());
}

/// The low five limbs of a value are its residue modulo 2^320.
pub proof fn lemma_low_limbs(s: Seq<u64>, k: int)
    requires
        0 <= k <= s.len(),
    ensures
        limbs_val(s.take(k)) == limbs_val(s) % weight(k as nat),
        limbs_val(s.skip(k)) == limbs_val(s) / weight(k as nat),
{
    lemma_val_split(s, k);
    lemma_val_bound(s.take(k));
    assert(s.take(k).len() == k);
    lemma_weight_pos(k as nat);
    lemma_fundamental_div_mod_converse(
        limbs_val(s) as int,
        weight(k as nat) as int,
        limbs_val(s.skip(k)) as int,
        limbs_val(s.take(k)) as int,
    );
}

/// Shared tail of Barrett reduction: from the quotient estimate (limbs 5.. of q2),
/// computes x - q3 p on five limbs and subtracts p until the result is reduced.
fn finish_barrett(x: &[u64; 8], q2: &[u64; 11]) -> (r: Limbs)
    requires
        limbs_val(q2@.skip(5)) * modulus() <= limbs_val(x@),
        limbs_val(x@) < limbs_val(q2@.skip(5)) * modulus() + weight(5),
    ensures
        limbs_val(r@) == limbs_val(x@) % modulus(),
        limbs_val(r@) < modulus(),
{
    let q3 = [q2[5], q2[6], q2[7], q2[8], q2[9], q2[10]];
    let r1 = [x[0], x[1], x[2], x[3], x[4]];
    let r2 = mul_modulus_low(&q3);
    let r = sub_low5(&r1, &r2);
    let mut result: Limbs = [r[0], r[1], r[2], r[3]];
    let mut high = r[4];
    proof {
        lemma_modulus_val();
        assert(q3@ =~= q2@.skip(5));
        assert(r1@ =~= x@.take(5));
        lemma_low_limbs(x@, 5);
        lemma_barrett_sub(
            limbs_val(x@),
            limbs_val(q3@) * modulus(),
            limbs_val(r1@),
            limbs_val(r2@),
            limbs_val(r@),
        );
        assert(result@ =~= r@.take(4));
        lemma_val_split(r@, 4);
        assert(r@.skip(4) =~= seq![high]);
        lemma_val_prefixes(r@.skip(4));
        lemma_val_take_all(r@.skip(4));
        lemma_residue_after_quotient(limbs_val(x@), limbs_val(q3@), limbs_val(r@));
    }
    loop
        invariant
            limbs_val(MODULUS@) == modulus(),
            (limbs_val(result@) + high * weight(4)) % modulus_int() == limbs_val(x@) % modulus(),
        ensures
            high == 0,
            limbs_val(result@) % modulus() == limbs_val(x@) % modulus(),
        decreases limbs_val(result@) + high * weight(4),
    {
        if high == 0 {
            break;
        }
        proof {
            lemma_weight_small();
            lemma_val_bound(result@);
        }
        if !matches!(raw_cmp(&result, &MODULUS), Ordering::Less) {
            let (r2, _) = raw_sub(&result, &MODULUS);
            proof {
                lemma_val_bound(r2@);
                lemma_sub_p_residue(limbs_val(result@) + high * weight(4), limbs_val(x@) % modulus());
            }
            result = r2;
        } else {
            let (r2, h2) = sub_modulus_with_high(&result, high);
            proof {
                lemma_sub_p_residue(limbs_val(result@) + high * weight(4), limbs_val(x@) % modulus());
            }
            result = r2;
            high = h2;
        }
    }
    loop
        invariant
            limbs_val(MODULUS@) == modulus(),
            limbs_val(result@) % modulus() == limbs_val(x@) % modulus(),
        ensures
            limbs_val(result@) < modulus(),
            limbs_val(result@) % modulus() == limbs_val(x@) % modulus(),
        decreases limbs_val(result@),
    {
        if matches!(raw_cmp(&result, &MODULUS), Ordering::Less) {
            break;
        }
        let (r2, _) = raw_sub(&result, &MODULUS);
        proof {
            lemma_val_bound(r2@);
            lemma_val_bound(result@);
            lemma_weight_small();
            lemma_sub_p_residue_nat(limbs_val(result@), limbs_val(x@) % modulus());
        }
        result = r2;
    }
    proof {
        lemma_residue_canonical(limbs_val(result@), limbs_val(x@));
    }
    result
}

/// The quotient estimate of a full or truncated q1 * mu product satisfies what
/// `finish_barrett` needs.
pub proof fn lemma_barrett_ready(x: Seq<u64>, q1: Seq<u64>, q2: Seq<u64>, d: nat)
    requires
        x.len() == 8,
        q1 == x.skip(3),
        q2.len() == 11,
        limbs_val(q2) <= limbs_val(q1) * barrett_mu(),
        limbs_val(q1) * barrett_mu() <= limbs_val(q2) + d,
        d < 5 * weight(5),
    ensures
        limbs_val(q2.skip(5)) * modulus() <= limbs_val(x),
        limbs_val(x) < limbs_val(q2.skip(5)) * modulus() + weight(5),
{
    lemma_modulus_val();
    lemma_weight_small();
    lemma_weight_add(3, 5);
    lemma_val_bound(x);
    lemma_val_split(x, 3);
    lemma_val_bound(x.take(3));
    lemma_val_split(q2, 5);
    lemma_val_bound(q2.take(5));
    assert(x.take(3).len() == 3);
    assert(q2.take(5).len() == 5);
    let xv = limbs_val(x) as int;
    let q1v = limbs_val(q1) as int;
    let q3 = limbs_val(q2.skip(5)) as int;
    let w3 = weight(3) as int;
    let w5 = weight(5) as int;
    lemma_mul_is_distributive_add_other_way(w3, q1v, 1);
    lemma_mul_is_distributive_add_other_way(w5, q3, 1);
    lemma_mul_is_commutative(q1v, w3);
    lemma_mul_is_commutative(q3, w5);
    lemma_barrett_bound(
        xv,
        q1v,
        limbs_val(q2) as int,
        d as int,
        q3,
        barrett_mu() as int,
        modulus() as int,
        w3,
        w5,
        weight(8) as int,
    );
}

/// Barrett reduction of a wide (8-limb) value modulo p.
fn raw_barrett_reduce(x: &[u64; 8]) -> (r: Limbs)
    ensures
        limbs_val(r@) == limbs_val(x@) % modulus(),
        limbs_val(r@) < modulus(),
{
    let q1 = [x[3], x[4], x[5], x[6], x[7]];
    let mut q2 = [0u64; 11];
    proof {
        lemma_val_zeros(q2@);
        assert(limbs_val(q1@.take(0)) == 0);
        lemma_mul_basics(limbs_val(BARRETT_MU@.take(5)) as int);
    }
    for i in 0..5
        invariant
            limbs_val(q2@) == limbs_val(q1@.take(i as int)) * limbs_val(BARRETT_MU@.take(5)),
            forall|k: int| i + 5 <= k < 11 ==> q2[k] == 0,
    {
        let mut carry: u128 = 0;
        proof {
            assert(limbs_val(BARRETT_MU@.take(0)) == 0);
            assert(i + 0 == i);
        }
        for j in 0..5
            invariant
                0 <= i < 5,
                carry < 0x1_0000_0000_0000_0000,
                limbs_val(q2@) + carry * weight((i + j) as nat) == limbs_val(q1@.take(i as int))
                    * limbs_val(BARRETT_MU@.take(5)) + q1[i as int] * limbs_val(
                    BARRETT_MU@.take(j as int),
                ) * weight(i as nat),
                forall|k: int| i + 5 <= k < 11 ==> q2[k] == 0,
        {
            proof {
                lemma_mac_fits(q1[i as int], BARRETT_MU[j as int], q2[(i + j) as int], carry);
            }
            let ghost s0 = q2@;
            let ghost c0 = carry;
            let prod = (q1[i] as u128) * (BARRETT_MU[j] as u128) + (q2[i + j] as u128) + carry;
            q2[i + j] = prod as u64;
            carry = prod >> 64;
            proof {
                lemma_write_carry(s0, (i + j) as int, prod);
                lemma_u128_split(prod);
                lemma_weight_add(i as nat, j as nat);
                lemma_val_take_step(BARRETT_MU@, j as int);
                lemma_mul_is_distributive_add_other_way(
                    weight((i + j) as nat) as int,
                    (q1[i as int] as int) * (BARRETT_MU[j as int] as int),
                    c0 as int,
                );
                lemma_row_extend(
                    (limbs_val(q1@.take(i as int)) * limbs_val(BARRETT_MU@.take(5))) as int,
                    q1[i as int] as int,
                    limbs_val(BARRETT_MU@.take(j as int)) as int,
                    BARRETT_MU[j as int] as int,
                    weight(i as nat) as int,
                    weight(j as nat) as int,
                    weight((i + j) as nat) as int,
                );
                lemma_mul_is_associative(
                    q1[i as int] as int,
                    BARRETT_MU[j as int] as int,
                    weight((i + j) as nat) as int,
                );
                assert(i + j + 1 == i + (j + 1));
            }
        }
        let ghost s1 = q2@;
        q2[i + 5] = q2[i + 5].wrapping_add(carry as u64);
        proof {
            lemma_val_update(s1, (i + 5) as int, carry as u64);
            lemma_val_take_step(q1@, i as int);
            lemma_row_done(
                0,
                limbs_val(q1@.take(i as int)) as int,
                q1[i as int] as int,
                limbs_val(BARRETT_MU@.take(5)) as int,
                weight(i as nat) as int,
            );
            lemma_mul_is_associative(
                q1[i as int] as int,
                limbs_val(BARRETT_MU@.take(5)) as int,
                weight(i as nat) as int,
            );
            lemma_mul_is_associative(
                q1[i as int] as int,
                weight(i as nat) as int,
                limbs_val(BARRETT_MU@.take(5)) as int,
            );
            lemma_mul_is_commutative(limbs_val(BARRETT_MU@.take(5)) as int, weight(i as nat) as int);
        }
    }
    proof {
        lemma_val_take_all(q1@);
        lemma_val_zero_tail(BARRETT_MU@, 5);
        lemma_modulus_val();
        assert(q1@ =~= x@.skip(3));
        lemma_weight_small();
        lemma_barrett_ready(x@, q1@, q2@, 0);
    }
    finish_barrett(x, &q2)
}

/// State of a schoolbook row in progress: `x` times the first `j` limbs of `y`,
/// placed at limb `i`, has been added to `r` (with `carry` pending at limb `i + j`),
/// on top of `base`, apart from the amount `dropped` that was left out.
pub open spec fn row_state(
    r: Seq<u64>,
    carry: int,
    dropped: int,
    base: int,
    x: int,
    y: Seq<u64>,
    i: nat,
    j: nat,
) -> bool {
    limbs_val(r) + carry * weight(i + j) + dropped == base + x * limbs_val(y.take(j as int)) * weight(i)
}

/// One multiply-accumulate step of a row.
pub proof fn lemma_row_step(
    r: Seq<u64>,
    carry: u128,
    dropped: int,
    base: int,
    x: u64,
    y: Seq<u64>,
    i: nat,
    j: nat,
    prod: u128,
)
    requires
        row_state(r, carry as int, dropped, base, x as int, y, i, j),
        j < y.len(),
        i + j < r.len(),
        prod == (x as int) * (y[j as int] as int) + r[(i + j) as int] + carry,
    ensures
        row_state(r.update((i + j) as int, prod as u64), (prod >> 64u128) as int, dropped, base, x as int, y, i, j + 1),
{
    lemma_write_carry(r, (i + j) as int, prod);
    lemma_weight_add(i, j);
    lemma_val_take_step(y, j as int);
    lemma_mul_is_distributive_add_other_way(
        weight(i + j) as int,
        (x as int) * (y[j as int] as int),
        carry as int,
    );
    lemma_row_extend(
        base,
        x as int,
        limbs_val(y.take(j as int)) as int,
        y[j as int] as int,
        weight(i) as int,
        weight(j) as int,
        weight(i + j) as int,
    );
    lemma_mul_is_associative(x as int, y[j as int] as int, weight(i + j) as int);
    assert(i + j + 1 == i + (j + 1));
}

/// Closing a row whose carry lands in an empty limb.
pub proof fn lemma_row_close(
    r: Seq<u64>,
    carry: u128,
    dropped: int,
    xs: Seq<u64>,
    y: Seq<u64>,
    i: nat,
)
    requires
        i < xs.len(),
        i + y.len() < r.len(),
        carry < 0x1_0000_0000_0000_0000,
        r[(i + y.len()) as int] == 0,
        row_state(
            r,
            carry as int,
            dropped,
            (limbs_val(xs.take(i as int)) * limbs_val(y)) as int,
            xs[i as int] as int,
            y,
            i,
            y.len(),
        ),
    ensures
        limbs_val(r.update((i + y.len()) as int, carry as u64)) + dropped == limbs_val(xs.take((i + 1) as int))
            * limbs_val(y),
{
    lemma_val_update(r, (i + y.len()) as int, carry as u64);
    lemma_val_take_all(y);
    lemma_val_take_step(xs, i as int);
    lemma_row_done(
        0,
        limbs_val(xs.take(i as int)) as int,
        xs[i as int] as int,
        limbs_val(y) as int,
        weight(i) as int,
    );
    lemma_mul_is_associative(xs[i as int] as int, limbs_val(y) as int, weight(i) as int);
    lemma_mul_is_associative(xs[i as int] as int, weight(i) as int, limbs_val(y) as int);
    lemma_mul_is_commutative(limbs_val(y) as int, weight(i) as int);
}

/// Opening a row at limb `j0` of `y`, leaving out the partial products below it.
pub proof fn lemma_row_open(r: Seq<u64>, dropped: int, xs: Seq<u64>, y: Seq<u64>, i: nat, j0: nat)
    requires
        i < xs.len(),
        j0 <= y.len(),
        limbs_val(r) + dropped == limbs_val(xs.take(i as int)) * limbs_val(y),
    ensures
        row_state(
            r,
            0,
            dropped + xs[i as int] * limbs_val(y.take(j0 as int)) * weight(i),
            (limbs_val(xs.take(i as int)) * limbs_val(y)) as int,
            xs[i as int] as int,
            y,
            i,
            j0,
        ),
        0 <= xs[i as int] * limbs_val(y.take(j0 as int)) * weight(i) < weight(i + j0 + 1),
{
    lemma_val_bound(y.take(j0 as int));
    lemma_weight_add(i, j0);
    lemma_weight_add(i + j0, 1);
    assert(weight(1) == limb_base()) by {
        lemma_weight_small();
    }
    lemma_weight_pos(i);
    lemma_bound_row_drop(
        xs[i as int] as int,
        limbs_val(y.take(j0 as int)) as int,
        weight(i) as int,
        weight(j0) as int,
    );
}

pub proof fn lemma_bound_row_drop(x: int, v: int, wi: int, wj: int)
    by (nonlinear_arith)
    requires
        0 <= x < 0x1_0000_0000_0000_0000,
        0 <= v < wj,
        wi > 0,
    ensures
        0 <= x * v * wi < wi * wj * 0x1_0000_0000_0000_0000,
{
}

/// EXPERIMENTAL variant of Barrett reduction: the top limb of mu is exactly 2, so
/// that column is a doubling instead of a 128-bit multiply.
fn raw_barrett_reduce_mu4_shift(x: &[u64; 8]) -> (r: Limbs)
    ensures
        limbs_val(r@) == limbs_val(x@) % modulus(),
        limbs_val(r@) < modulus(),
{
    let q1 = [x[3], x[4], x[5], x[6], x[7]];
    let mut q2 = [0u64; 11];
    let ghost mu5 = BARRETT_MU@.take(5);
    proof {
        lemma_val_zeros(q2@);
        assert(limbs_val(q1@.take(0)) == 0);
        lemma_mul_basics(limbs_val(mu5) as int);
    }
    for i in 0..5
        invariant
            mu5 == BARRETT_MU@.take(5),
            limbs_val(q2@) == limbs_val(q1@.take(i as int)) * limbs_val(mu5),
            forall|k: int| i + 5 <= k < 11 ==> q2[k] == 0,
    {
        let mut carry: u128 = 0;
        proof {
            lemma_row_open(q2@, 0, q1@, mu5, i as nat, 0);
            lemma_mul_basics(q1[i as int] as int);
        }
        for j in 0..4
            invariant
                0 <= i < 5,
                mu5 == BARRETT_MU@.take(5),
                carry < 0x1_0000_0000_0000_0000,
                row_state(
                    q2@,
                    carry as int,
                    0,
                    (limbs_val(q1@.take(i as int)) * limbs_val(mu5)) as int,
                    q1[i as int] as int,
                    mu5,
                    i as nat,
                    j as nat,
                ),
                forall|k: int| i + 5 <= k < 11 ==> q2[k] == 0,
        {
            proof {
                lemma_mac_fits(q1[i as int], BARRETT_MU[j as int], q2[(i + j) as int], carry);
            }
            let ghost s0 = q2@;
            let ghost c0 = carry;
            let prod = (q1[i] as u128) * (BARRETT_MU[j] as u128) + (q2[i + j] as u128) + carry;
            q2[i + j] = prod as u64;
            carry = prod >> 64;
            proof {
                lemma_u128_split(prod);
                lemma_row_step(s0, c0, 0, (limbs_val(q1@.take(i as int)) * limbs_val(mu5)) as int, q1[i as int], mu5, i as nat, j as nat, prod);
            }
        }
        // j = 4: BARRETT_MU[4] == 2 exactly, so the product is a doubling.
        proof {
            lemma_mac_fits(q1[i as int], 2, q2[(i + 4) as int], carry);
            lemma_shl_one(q1[i as int]);
        }
        let ghost s0 = q2@;
        let ghost c0 = carry;
        let p = ((q1[i] as u128) << 1) + (q2[i + 4] as u128) + carry;
        q2[i + 4] = p as u64;
        carry = p >> 64;
        proof {
            lemma_u128_split(p);
            lemma_row_step(s0, c0, 0, (limbs_val(q1@.take(i as int)) * limbs_val(mu5)) as int, q1[i as int], mu5, i as nat, 4, p);
        }
        let ghost s1 = q2@;
        q2[i + 5] = q2[i + 5].wrapping_add(carry as u64);
        proof {
            lemma_row_close(s1, carry, 0, q1@, mu5, i as nat);
        }
    }
    proof {
        lemma_val_take_all(q1@);
        lemma_val_zero_tail(BARRETT_MU@, 5);
        lemma_modulus_val();
        assert(q1@ =~= x@.skip(3));
        lemma_weight_small();
        lemma_barrett_ready(x@, q1@, q2@, 0);
    }
    finish_barrett(x, &q2)
}

pub proof fn lemma_shl_one(v: u64)
    ensures
        (v as u128) << 1u128 == 2 * (v as u128),
{
    let w = v as u128;
    assert(w < 0x1_0000_0000_0000_0000u128);
    assert(w < 0x1_0000_0000_0000_0000u128 ==> w << 1u128 == 2 * w) by (bit_vector);
}

/// EXPERIMENTAL variant of Barrett reduction: only the pairs (i, j) of q1 * mu with
/// i + j >= 4 are computed (one limb of slack below the retained position 5); the
/// rows are unrolled with static bounds.
#[verifier::spinoff_prover]
#[verifier::rlimit(80)]
fn raw_barrett_reduce_truncated(x: &[u64; 8]) -> (r: Limbs)
    ensures
        limbs_val(r@) == limbs_val(x@) % modulus(),
        limbs_val(r@) < modulus(),
{
    let q1 = [x[3], x[4], x[5], x[6], x[7]];
    let mut q2 = [0u64; 11];
    let ghost mu5 = BARRETT_MU@.take(5);
    let ghost mut dropped: int = 0;
    proof {
        lemma_val_zeros(q2@);
        assert(limbs_val(q1@.take(0)) == 0);
        lemma_mul_basics(limbs_val(mu5) as int);
        lemma_weight_small();
    }
    // row i=0: only j=4 contributes (i+j>=4)
    {
        proof {
            lemma_row_open(q2@, dropped, q1@, mu5, 0, 4);
            dropped = dropped + q1[0] * limbs_val(mu5.take(4)) * weight(0);
        }
        proof {
            lemma_mac_fits(q1[0], BARRETT_MU[4], q2[4], 0);
        }
        let ghost s0 = q2@;
        let p = (q1[0] as u128) * (BARRETT_MU[4] as u128) + (q2[4] as u128);
        q2[4] = p as u64;
        proof {
            lemma_u128_split(p);
            lemma_row_step(s0, 0, dropped, (limbs_val(q1@.take(0)) * limbs_val(mu5)) as int, q1[0], mu5, 0, 4, p);
        }
        let carry: u128 = p >> 64;
        let ghost s1 = q2@;
        q2[5] = q2[5].wrapping_add(carry as u64);
        proof {
            lemma_row_close(s1, carry, dropped, q1@, mu5, 0);
        }
    }
    // row i=1: j=3..4
    {
        proof {
            lemma_row_open(q2@, dropped, q1@, mu5, 1, 3);
            dropped = dropped + q1[1] * limbs_val(mu5.take(3)) * weight(1);
        }
        let mut carry: u128 = 0;
        proof {
            lemma_mac_fits(q1[1], BARRETT_MU[3], q2[4], 0);
        }
        let ghost s0 = q2@;
        let p = (q1[1] as u128) * (BARRETT_MU[3] as u128) + (q2[4] as u128);
        q2[4] = p as u64;
        carry = p >> 64;
        proof {
            lemma_u128_split(p);
            lemma_row_step(s0, 0, dropped, (limbs_val(q1@.take(1)) * limbs_val(mu5)) as int, q1[1], mu5, 1, 3, p);
        }
        proof {
            lemma_mac_fits(q1[1], BARRETT_MU[4], q2[5], carry);
        }
        let ghost s0 = q2@;
        let ghost c0 = carry;
        let p = (q1[1] as u128) * (BARRETT_MU[4] as u128) + (q2[5] as u128) + carry;
        q2[5] = p as u64;
        carry = p >> 64;
        proof {
            lemma_u128_split(p);
            lemma_row_step(s0, c0, dropped, (limbs_val(q1@.take(1)) * limbs_val(mu5)) as int, q1[1], mu5, 1, 4, p);
        }
        let ghost s1 = q2@;
        q2[6] = q2[6].wrapping_add(carry as u64);
        proof {
            lemma_row_close(s1, carry, dropped, q1@, mu5, 1);
        }
    }
    // row i=2: j=2..4
    {
        proof {
            lemma_row_open(q2@, dropped, q1@, mu5, 2, 2);
            dropped = dropped + q1[2] * limbs_val(mu5.take(2)) * weight(2);
        }
        let mut carry: u128 = 0;
        proof {
            lemma_mac_fits(q1[2], BARRETT_MU[2], q2[4], 0);
        }
        let ghost s0 = q2@;
        let p = (q1[2] as u128) * (BARRETT_MU[2] as u128) + (q2[4] as u128);
        q2[4] = p as u64;
        carry = p >> 64;
        proof {
            lemma_u128_split(p);
            lemma_row_step(s0, 0, dropped, (limbs_val(q1@.take(2)) * limbs_val(mu5)) as int, q1[2], mu5, 2, 2, p);
        }
        proof {
            lemma_mac_fits(q1[2], BARRETT_MU[3], q2[5], carry);
        }
        let ghost s0 = q2@;
        let ghost c0 = carry;
        let p = (q1[2] as u128) * (BARRETT_MU[3] as u128) + (q2[5] as u128) + carry;
        q2[5] = p as u64;
        carry = p >> 64;
        proof {
            lemma_u128_split(p);
            lemma_row_step(s0, c0, dropped, (limbs_val(q1@.take(2)) * limbs_val(mu5)) as int, q1[2], mu5, 2, 3, p);
        }
        proof {
            lemma_mac_fits(q1[2], BARRETT_MU[4], q2[6], carry);
        }
        let ghost s0 = q2@;
        let ghost c0 = carry;
        let p = (q1[2] as u128) * (BARRETT_MU[4] as u128) + (q2[6] as u128) + carry;
        q2[6] = p as u64;
        carry = p >> 64;
        proof {
            lemma_u128_split(p);
            lemma_row_step(s0, c0, dropped, (limbs_val(q1@.take(2)) * limbs_val(mu5)) as int, q1[2], mu5, 2, 4, p);
        }
        let ghost s1 = q2@;
        q2[7] = q2[7].wrapping_add(carry as u64);
        proof {
            lemma_row_close(s1, carry, dropped, q1@, mu5, 2);
        }
    }
    // row i=3: j=1..4
    {
        proof {
            lemma_row_open(q2@, dropped, q1@, mu5, 3, 1);
            dropped = dropped + q1[3] * limbs_val(mu5.take(1)) * weight(3);
        }
        let mut carry: u128 = 0;
        proof {
            lemma_mac_fits(q1[3], BARRETT_MU[1], q2[4], 0);
        }
        let ghost s0 = q2@;
        let p = (q1[3] as u128) * (BARRETT_MU[1] as u128) + (q2[4] as u128);
        q2[4] = p as u64;
        carry = p >> 64;
        proof {
            lemma_u128_split(p);
            lemma_row_step(s0, 0, dropped, (limbs_val(q1@.take(3)) * limbs_val(mu5)) as int, q1[3], mu5, 3, 1, p);
        }
        proof {
            lemma_mac_fits(q1[3], BARRETT_MU[2], q2[5], carry);
        }
        let ghost s0 = q2@;
        let ghost c0 = carry;
        let p = (q1[3] as u128) * (BARRETT_MU[2] as u128) + (q2[5] as u128) + carry;
        q2[5] = p as u64;
        carry = p >> 64;
        proof {
            lemma_u128_split(p);
            lemma_row_step(s0, c0, dropped, (limbs_val(q1@.take(3)) * limbs_val(mu5)) as int, q1[3], mu5, 3, 2, p);
        }
        proof {
            lemma_mac_fits(q1[3], BARRETT_MU[3], q2[6], carry);
        }
        let ghost s0 = q2@;
        let ghost c0 = carry;
        let p = (q1[3] as u128) * (BARRETT_MU[3] as u128) + (q2[6] as u128) + carry;
        q2[6] = p as u64;
        carry = p >> 64;
        proof {
            lemma_u128_split(p);
            lemma_row_step(s0, c0, dropped, (limbs_val(q1@.take(3)) * limbs_val(mu5)) as int, q1[3], mu5, 3, 3, p);
        }
        proof {
            lemma_mac_fits(q1[3], BARRETT_MU[4], q2[7], carry);
        }
        let ghost s0 = q2@;
        let ghost c0 = carry;
        let p = (q1[3] as u128) * (BARRETT_MU[4] as u128) + (q2[7] as u128) + carry;
        q2[7] = p as u64;
        carry = p >> 64;
        proof {
            lemma_u128_split(p);
            lemma_row_step(s0, c0, dropped, (limbs_val(q1@.take(3)) * limbs_val(mu5)) as int, q1[3], mu5, 3, 4, p);
        }
        let ghost s1 = q2@;
        q2[8] = q2[8].wrapping_add(carry as u64);
        proof {
            lemma_row_close(s1, carry, dropped, q1@, mu5, 3);
        }
    }
    // row i=4: j=0..4, a complete row
    {
        proof {
            lemma_row_open(q2@, dropped, q1@, mu5, 4, 0);
            dropped = dropped + q1[4] * limbs_val(mu5.take(0)) * weight(4);
        }
        let mut carry: u128 = 0;
        for j in 0..5
            invariant
                mu5 == BARRETT_MU@.take(5),
                carry < 0x1_0000_0000_0000_0000,
                row_state(
                    q2@,
                    carry as int,
                    dropped,
                    (limbs_val(q1@.take(4)) * limbs_val(mu5)) as int,
                    q1[4] as int,
                    mu5,
                    4,
                    j as nat,
                ),
                q2[9] == 0,
                q2[10] == 0,
        {
            proof {
                lemma_mac_fits(q1[4], BARRETT_MU[j as int], q2[(4 + j) as int], carry);
            }
            let ghost s0 = q2@;
            let ghost c0 = carry;
            let p = (q1[4] as u128) * (BARRETT_MU[j] as u128) + (q2[4 + j] as u128) + carry;
            q2[4 + j] = p as u64;
            carry = p >> 64;
            proof {
                lemma_u128_split(p);
                lemma_row_step(s0, c0, dropped, (limbs_val(q1@.take(4)) * limbs_val(mu5)) as int, q1[4], mu5, 4, j as nat, p);
            }
        }
        let ghost s1 = q2@;
        q2[9] = q2[9].wrapping_add(carry as u64);
        proof {
            lemma_row_close(s1, carry, dropped, q1@, mu5, 4);
        }
    }
    proof {
        assert(0 <= dropped < 5 * weight(5));
        lemma_val_take_all(q1@);
        lemma_val_zero_tail(BARRETT_MU@, 5);
        lemma_modulus_val();
        assert(q1@ =~= x@.skip(3));
        lemma_barrett_ready(x@, q1@, q2@, dropped as nat);
    }
    finish_barrett(x, &q2)
}


/// Multiplying two residues of powers adds the exponents.
pub proof fn lemma_pow_mul_step(a: int, e: nat, f: nat, r: nat, b: nat)
    requires
        r % modulus() == pow(a, e) % modulus_int(),
        b % modulus() == pow(a, f) % modulus_int(),
    ensures
        (r * b) % modulus() == pow(a, e + f) % modulus_int(),
{
    let m = modulus_int();
    lemma_mul_mod_noop_general(r as int, b as int, m);
    lemma_mul_mod_noop_general(pow(a, e), pow(a, f), m);
    lemma_pow_adds(a, e, f);
}

/// One square-and-multiply step on the exponent bookkeeping.
pub proof fn lemma_exp_bit_step(e: nat, limb: u64, b: nat, rest: nat, total: nat)
    requires
        e + limb * b + rest == total,
    ensures
        (if limb & 1u64 == 1u64 { e + b } else { e }) + (limb >> 1u64) * (2 * b) + rest == total,
        (limb & 1u64 == 1u64) || (limb & 1u64 == 0u64),
{
    assert((limb & 1u64) == limb % 2) by (bit_vector);
    assert((limb >> 1u64) == limb / 2) by (bit_vector);
    lemma_fundamental_div_mod(limb as int, 2);
    let h = (limb / 2) as int;
    let l = (limb % 2) as int;
    assert(limb * b == (2 * h + l) * b);
    assert((2 * h + l) * (b as int) == h * (2 * b) + l * b) by (nonlinear_arith);
}

/// Shifting the limb right once more divides by the next power of two.
pub proof fn lemma_exp_shift(x: u64, limb: u64, bit: nat)
    requires
        limb == x as nat / pow2(bit),
    ensures
        (limb >> 1u64) == x as nat / pow2(bit + 1),
{
    assert((limb >> 1u64) == limb / 2) by (bit_vector);
    lemma_pow2_pos(bit);
    lemma_div_denominator(x as int, pow2(bit) as int, 2);
    assert(pow2(bit + 1) == 2 * pow2(bit)) by {
        reveal(pow2);
        lemma_pow2_unfold(bit + 1);
    }
    lemma_mul_is_commutative(pow2(bit) as int, 2);
}

// ================================================================================
// StdFr2: a field element built directly on the raw primitives above.
// ================================================================================

/// A field element in standard form: four little-endian limbs, canonical (< p) for
/// every value that the constructors and operations below produce.
#[derive(Copy, Clone, Debug, Eq)]
pub struct StdFr2(pub Limbs);

impl PartialEq for StdFr2 {
    fn eq(&self, other: &Self) -> (r: bool) {
        self.0[0] == other.0[0] && self.0[1] == other.0[1] && self.0[2] == other.0[2] && self.0[3]
            == other.0[3]
    }
}

impl PartialEqSpecImpl for StdFr2 {
    open spec fn obeys_eq_spec() -> bool {
        true
    }

    open spec fn eq_spec(&self, other: &Self) -> bool {
        self.0[0] == other.0[0] && self.0[1] == other.0[1] && self.0[2] == other.0[2] && self.0[3]
            == other.0[3]
    }
}

impl StdFr2 {
    /// The integer that the limbs denote.
    pub open spec fn value(&self) -> nat {
        limbs_val(self.0@)
    }

    /// Canonical representative: below the modulus.
    pub open spec fn is_canonical(&self) -> bool {
        self.value() < modulus()
    }

    pub fn zero() -> (r: Self)
        ensures
            r.value() == 0,
            r.is_canonical(),
    {
        proof {
            lemma_val_prefixes(seq![0u64, 0u64, 0u64, 0u64]);
            lemma_modulus_val();
        }
        let r = StdFr2([0, 0, 0, 0]);
        proof {
            assert(r.0@ =~= seq![0u64, 0u64, 0u64, 0u64]);
            lemma_val_take_all(r.0@);
        }
        r
    }

    pub fn one() -> (r: Self)
        ensures
            r.value() == 1,
            r.is_canonical(),
    {
        let r = StdFr2([1, 0, 0, 0]);
        proof {
            lemma_val_prefixes(r.0@);
            lemma_val_take_all(r.0@);
            lemma_modulus_val();
            lemma_weight_small();
            assert(r.0@[0] == 1 && r.0@[1] == 0 && r.0@[2] == 0 && r.0@[3] == 0);
            assert(r.value() == r.0@[0] + r.0@[1] * weight(1) + r.0@[2] * weight(2) + r.0@[3] * weight(3));
            lemma_mul_basics(weight(1) as int);
            lemma_mul_basics(weight(2) as int);
            lemma_mul_basics(weight(3) as int);
            assert(r.value() == 1);
        }
        r
    }

    pub fn from_u64(x: u64) -> (r: Self)
        ensures
            r.value() == x,
            r.is_canonical(),
    {
        let r = StdFr2([x, 0, 0, 0]);
        proof {
            lemma_val_prefixes(r.0@);
            lemma_val_take_all(r.0@);
            lemma_modulus_val();
            lemma_weight_small();
            assert(r.0@[0] == x && r.0@[1] == 0 && r.0@[2] == 0 && r.0@[3] == 0);
            assert(r.value() == r.0@[0] + r.0@[1] * weight(1) + r.0@[2] * weight(2) + r.0@[3] * weight(3));
            lemma_mul_basics(weight(1) as int);
            lemma_mul_basics(weight(2) as int);
            lemma_mul_basics(weight(3) as int);
            assert(r.value() == x);
        }
        r
    }

    pub fn is_zero(&self) -> (r: bool)
        ensures
            r == (self.value() == 0),
    {
        proof {
            lemma_val_prefixes(self.0@);
            lemma_val_take_all(self.0@);
            lemma_weight_small();
            assert(self.0@.len() == 4);
        }
        let r = self.0[0] == 0 && self.0[1] == 0 && self.0[2] == 0 && self.0[3] == 0;
        proof {
            assert(self.value() == self.0@[0] + self.0@[1] * weight(1) + self.0@[2] * weight(2)
                + self.0@[3] * weight(3));
        }
        r
    }

    pub fn add(&self, other: &Self) -> (r: Self)
        requires
            self.is_canonical(),
            other.is_canonical(),
        ensures
            r.value() == fe_add(self.value(), other.value()),
            r.is_canonical(),
    {
        StdFr2(raw_mod_add(&self.0, &other.0))
    }

    pub fn sub(&self, other: &Self) -> (r: Self)
        requires
            self.is_canonical(),
            other.is_canonical(),
        ensures
            r.value() == fe_sub(self.value(), other.value()),
            r.is_canonical(),
    {
        StdFr2(raw_mod_sub(&self.0, &other.0))
    }

    /// Generic big-big multiplication, directly on the raw limbs.
    pub fn mul_bb(&self, other: &Self) -> (r: Self)
        ensures
            r.value() == fe_mul(self.value(), other.value()),
            r.is_canonical(),
    {
        let wide = raw_mul_wide(&self.0, &other.0);
        StdFr2(raw_barrett_reduce(&wide))
    }

    /// Big-big multiplication through the truncated Barrett reduction (kept for
    /// benchmarking: it does less arithmetic but measured slower than `mul_bb`).
    pub fn mul_bb_truncated(&self, other: &Self) -> (r: Self)
        ensures
            r.value() == fe_mul(self.value(), other.value()),
            r.is_canonical(),
    {
        let wide = raw_mul_wide(&self.0, &other.0);
        StdFr2(raw_barrett_reduce_truncated(&wide))
    }

    /// Big-big multiplication through the Barrett reduction that doubles instead of
    /// multiplying by the top limb of mu (kept for benchmarking).
    pub fn mul_bb_mu4shift(&self, other: &Self) -> (r: Self)
        ensures
            r.value() == fe_mul(self.value(), other.value()),
            r.is_canonical(),
    {
        let wide = raw_mul_wide(&self.0, &other.0);
        StdFr2(raw_barrett_reduce_mu4_shift(&wide))
    }

    /// Modular inversion via Fermat's little theorem (a^(p-2) mod p), binary
    /// exponentiation over the bits of p - 2, reusing only `mul_bb`.
    pub fn inverse(&self) -> (r: Self)
        ensures
            r.value() == fe_inv(self.value()),
            r.is_canonical(),
            crate::poly::fermat_holds() && 0 < self.value() < modulus() ==> fe_mul(self.value(), r.value()) == 1,
    {
        let (exponent, _borrow) = raw_sub(&MODULUS, &[2, 0, 0, 0]);
        let mut result = StdFr2::one();
        let mut base = *self;
        let ghost a = self.value() as int;
        let ghost mut e: nat = 0;
        let ghost mut b: nat = 1;
        proof {
            lemma_modulus_val();
            lemma_val_prefixes(seq![2u64, 0u64, 0u64, 0u64]);
            assert([2u64, 0u64, 0u64, 0u64]@ =~= seq![2u64, 0u64, 0u64, 0u64]);
            lemma_val_take_all(seq![2u64, 0u64, 0u64, 0u64]);
            lemma_weight_small();
            lemma_mul_basics(weight(1) as int);
            lemma_mul_basics(weight(2) as int);
            lemma_mul_basics(weight(3) as int);
            lemma_val_bound(exponent@);
            assert(limbs_val(exponent@) == modulus() - 2);
            lemma_pow0(a);
            lemma_pow1(a);
            lemma_small_mod(1, modulus());
            assert(exponent@.skip(0) =~= exponent@);
            lemma_mul_basics(limbs_val(exponent@) as int);
        }
        for limb_idx in 0..4
            invariant
                limbs_val(exponent@) == modulus() - 2,
                result.is_canonical(),
                result.value() % modulus() == pow(a, e) % modulus_int(),
                base.value() % modulus() == pow(a, b) % modulus_int(),
                b == weight(limb_idx as nat),
                e + limbs_val(exponent@.skip(limb_idx as int)) * b == limbs_val(exponent@),
        {
            let mut limb = exponent[limb_idx];
            proof {
                lemma_val_split(exponent@.skip(limb_idx as int), 1);
                assert(exponent@.skip(limb_idx as int).skip(1) =~= exponent@.skip(limb_idx + 1));
                lemma_val_prefixes(exponent@.skip(limb_idx as int));
                lemma_weight_small();
                lemma_weight_add(limb_idx as nat, 1);
                lemma_mul_is_distributive_add_other_way(
                    b as int,
                    exponent[limb_idx as int] as int,
                    (limbs_val(exponent@.skip(limb_idx + 1)) * limb_base()) as int,
                );
                lemma_mul_is_associative(
                    limbs_val(exponent@.skip(limb_idx + 1)) as int,
                    limb_base() as int,
                    b as int,
                );
                lemma_mul_is_commutative(limb_base() as int, b as int);
                lemma2_to64();
                assert(exponent[limb_idx as int] as nat / pow2(0) == exponent[limb_idx as int]);
                assert(b * pow2(0) == b);
            }
            for bit in 0..64
                invariant
                    0 <= limb_idx < 4,
                    limbs_val(exponent@) == modulus() - 2,
                    result.is_canonical(),
                    result.value() % modulus() == pow(a, e) % modulus_int(),
                    base.value() % modulus() == pow(a, b) % modulus_int(),
                    b == weight(limb_idx as nat) * pow2(bit as nat),
                    limb == exponent[limb_idx as int] as nat / pow2(bit as nat),
                    e + limb * b + limbs_val(exponent@.skip(limb_idx + 1)) * weight((limb_idx + 1) as nat)
                        == limbs_val(exponent@),
            {
                proof {
                    lemma_exp_bit_step(
                        e,
                        limb,
                        b,
                        limbs_val(exponent@.skip(limb_idx + 1)) * weight((limb_idx + 1) as nat),
                        limbs_val(exponent@),
                    );
                    lemma_exp_shift(exponent[limb_idx as int], limb, bit as nat);
                }
                if limb & 1 == 1 {
                    proof {
                        lemma_pow_mul_step(a, e, b, result.value(), base.value());
                        lemma_mod_bound((result.value() * base.value()) as int, modulus_int());
                    }
                    result = result.mul_bb(&base);
                    proof {
                        lemma_small_mod(result.value(), modulus());
                        e = e + b;
                    }
                }
                proof {
                    lemma_pow_mul_step(a, b, b, base.value(), base.value());
                }
                base = base.mul_bb(&base);
                proof {
                    lemma_small_mod(base.value(), modulus());
                    assert(b + b == 2 * b);
                    lemma_pow2_unfold((bit + 1) as nat);
                    lemma_mul_is_associative(weight(limb_idx as nat) as int, 2, pow2(bit as nat) as int);
                    lemma_mul_is_commutative(weight(limb_idx as nat) as int, 2);
                    lemma_mul_is_associative(2, weight(limb_idx as nat) as int, pow2(bit as nat) as int);
                    b = 2 * b;
                }
                limb >>= 1;
            }
            proof {
                lemma2_to64();
                assert(limb == 0) by {
                    lemma_div_is_ordered_by_denominator(exponent[limb_idx as int] as int, 1, pow2(64) as int);
                    lemma_basic_div(exponent[limb_idx as int] as int, pow2(64) as int);
                }
                assert(weight((limb_idx + 1) as nat) == limb_base() * weight(limb_idx as nat));
                lemma_mul_is_commutative(limb_base() as int, weight(limb_idx as nat) as int);
                lemma_mul_basics(b as int);
            }
        }
        proof {
            assert(exponent@.skip(4).len() == 0);
            lemma_mul_basics(b as int);
            lemma_small_mod(result.value(), modulus());
            if crate::poly::fermat_holds() && 0 < self.value() < modulus() {
                assert(fe_mul(self.value(), fe_inv(self.value())) == 1);
            }
        }
        result
    }

    /// The rejection step of uniform sampling: a candidate drawn uniformly from
    /// 256-bit words is accepted as a field element exactly when it is below p.
    pub fn try_from_limbs(limbs: Limbs) -> (r: Option<Self>)
        ensures
            r is Some == (limbs_val(limbs@) < modulus()),
            r matches Some(x) ==> x.0 == limbs,
    {
        proof {
            lemma_modulus_val();
        }
        if matches!(raw_cmp(&limbs, &MODULUS), Ordering::Less) {
            Some(StdFr2(limbs))
        } else {
            None
        }
    }

    /// Small-big multiplication, directly on the raw limbs (no Montgomery round-trip).
    pub fn mul_sb(&self, small: u64) -> (r: Self)
        ensures
            r.value() == fe_mul(self.value(), small as nat),
            r.is_canonical(),
    {
        let res = raw_mul_small(&self.0, small);
        let wide = [res[0], res[1], res[2], res[3], res[4], 0, 0, 0];
        proof {
            assert(wide@.take(5) =~= res@);
            lemma_val_zero_tail(wide@, 5);
        }
        StdFr2(raw_barrett_reduce(&wide))
    }
}

/// A field element is determined by its value: two elements with the same value hold
/// the same limbs. So the three Barrett multiplications (`mul_bb`, `mul_bb_truncated`,
/// `mul_bb_mu4shift`), whose results all have the value x y mod p, return the same
/// element, and so do `BigIntProver::compute_s_i` and `compute_s_i_sb`, and
/// `Prover::compute_s_i` and `compute_s_0_sb`, entry by entry.
pub proof fn lemma_value_determines_element(a: StdFr2, b: StdFr2)
    requires
        a.value() == b.value(),
    ensures
        a == b,
{
    lemma_val_injective(a.0@, b.0@);
    assert(a.0 == b.0);
}

/// Sequences of field elements with the same values, entry by entry, are equal: the
/// round messages of the two provers' message functions are the same vectors.
pub proof fn lemma_values_determine_elements(s1: Seq<StdFr2>, s2: Seq<StdFr2>)
    requires
        s1.len() == s2.len(),
        forall|i: int| 0 <= i < s1.len() ==> (#[trigger] s1[i]).value() == s2[i].value(),
    ensures
        s1 == s2,
{
    assert forall|i: int| 0 <= i < s1.len() implies #[trigger] s1[i] == s2[i] by {
        lemma_value_determines_element(s1[i], s2[i]);
    }
    assert(s1 =~= s2);
}

/// Two field elements compare equal exactly when their values are equal.
pub proof fn lemma_eq_spec_value(a: StdFr2, b: StdFr2)
    ensures
        (a.0[0] == b.0[0] && a.0[1] == b.0[1] && a.0[2] == b.0[2] && a.0[3] == b.0[3]) == (a.value()
            == b.value()),
{
    if a.value() == b.value() {
        lemma_val_injective(a.0@, b.0@);
        assert(a.0@[0] == b.0@[0] && a.0@[1] == b.0@[1] && a.0@[2] == b.0@[2] && a.0@[3] == b.0@[3]);
    }
    if a.0[0] == b.0[0] && a.0[1] == b.0[1] && a.0[2] == b.0[2] && a.0[3] == b.0[3] {
        assert(a.0@ =~= b.0@);
    }
}

} // verus!
