//! Little-endian multi-limb integers: the value of a sequence of 64-bit limbs,
//! and the facts about it that the limb-level algorithms rely on.
use vstd::arithmetic::div_mod::*;
use vstd::arithmetic::mul::*;
use vstd::prelude::*;

verus! {

/// 2^64, the radix of one limb.
pub open spec fn limb_base() -> nat {
    0x1_0000_0000_0000_0000
}

/// The weight of limb `i`: 2^(64 i).
pub open spec fn weight(i: nat) -> nat
    decreases i,
{
    if i == 0 {
        1
    } else {
        limb_base() * weight((i - 1) as nat)
    }
}

/// The integer that a little-endian sequence of limbs denotes.
pub open spec fn limbs_val(s: Seq<u64>) -> nat
    decreases s.len(),
{
    if s.len() == 0 {
        0
    } else {
        limbs_val(s.drop_last()) + (s.last() as nat) * weight((s.len() - 1) as nat)
    }
}

pub proof fn lemma_weight_pos(i: nat)
    ensures
        weight(i) > 0,
    decreases i,
{
    if i > 0 {
        lemma_weight_pos((i - 1) as nat);
        lemma_mul_strictly_positive(limb_base() as int, weight((i - 1) as nat) as int);
    }
}

pub proof fn lemma_weight_add(i: nat, j: nat)
    ensures
        weight(i + j) == weight(i) * weight(j),
    decreases j,
{
    if j == 0 {
        assert(weight(0) == 1);
        assert(i + j == i);
    } else {
        lemma_weight_add(i, (j - 1) as nat);
        let b = limb_base() as int;
        let wi = weight(i) as int;
        let wj1 = weight((j - 1) as nat) as int;
        assert(weight(i + j) == b * weight((i + j - 1) as nat));
        assert(weight((i + j - 1) as nat) == wi * wj1);
        assert(weight(j) == b * wj1);
        assert(b * (wi * wj1) == wi * (b * wj1)) by (nonlinear_arith);
    }
}

pub proof fn lemma_weight_mono(i: nat, j: nat)
    requires
        i <= j,
    ensures
        weight(i) <= weight(j),
{
    lemma_weight_add(i, (j - i) as nat);
    lemma_weight_pos((j - i) as nat);
    lemma_weight_pos(i);
    lemma_mul_increases(weight((j - i) as nat) as int, weight(i) as int);
    lemma_mul_is_commutative(weight((j - i) as nat) as int, weight(i) as int);
}

pub proof fn lemma_weight_small()
    ensures
        weight(0) == 1,
        weight(1) == 0x1_0000_0000_0000_0000,
        weight(2) == 0x1_0000_0000_0000_0000_0000_0000_0000_0000,
        weight(3) == 0x1_0000_0000_0000_0000_0000_0000_0000_0000_0000_0000_0000_0000,
        weight(4) == 0x1_0000_0000_0000_0000_0000_0000_0000_0000_0000_0000_0000_0000_0000_0000_0000_0000,
        weight(5) == 0x1_0000_0000_0000_0000_0000_0000_0000_0000_0000_0000_0000_0000_0000_0000_0000_0000_0000_0000_0000_0000,
{
    reveal_with_fuel(weight, 6);
}

/// Adding limb `i` to the value of the first `i` limbs.
pub proof fn lemma_val_take_step(s: Seq<u64>, i: int)
    requires
        0 <= i < s.len(),
    ensures
        limbs_val(s.take(i + 1)) == limbs_val(s.take(i)) + s[i] * weight(i as nat),
{
    assert(s.take(i + 1).drop_last() =~= s.take(i));
}

pub proof fn lemma_val_take_all(s: Seq<u64>)
    ensures
        limbs_val(s.take(s.len() as int)) == limbs_val(s),
{
    assert(s.take(s.len() as int) =~= s);
}

/// The value is below the weight of the first missing limb.
pub proof fn lemma_val_bound(s: Seq<u64>)
    ensures
        limbs_val(s) < weight(s.len()),
    decreases s.len(),
{
    if s.len() > 0 {
        let n = (s.len() - 1) as nat;
        lemma_val_bound(s.drop_last());
        assert(s.last() <= limb_base() - 1);
        lemma_mul_inequality(s.last() as int, limb_base() - 1, weight(n) as int);
        assert(weight(n + 1) == limb_base() * weight(n));
        lemma_mul_is_distributive_sub_other_way(weight(n) as int, limb_base() as int, 1);
        lemma_mul_is_commutative(weight(n) as int, limb_base() as int);
    }
}

/// Overwriting limb `k` changes the value by the difference times its weight.
pub proof fn lemma_val_update(s: Seq<u64>, k: int, v: u64)
    requires
        0 <= k < s.len(),
    ensures
        limbs_val(s.update(k, v)) + s[k] * weight(k as nat) == limbs_val(s) + v * weight(k as nat),
    decreases s.len(),
{
    let t = s.update(k, v);
    if k == s.len() - 1 {
        assert(t.drop_last() =~= s.drop_last());
    } else {
        assert(t.drop_last() =~= s.drop_last().update(k, v));
        lemma_val_update(s.drop_last(), k, v);
    }
}

/// Splitting the limbs at position `k`.
pub proof fn lemma_val_split(s: Seq<u64>, k: int)
    requires
        0 <= k <= s.len(),
    ensures
        limbs_val(s) == limbs_val(s.take(k)) + limbs_val(s.skip(k)) * weight(k as nat),
    decreases s.len(),
{
    if s.len() == k {
        assert(s.take(k) =~= s);
        assert(s.skip(k).len() == 0);
        assert(limbs_val(s.skip(k)) == 0);
    } else {
        let n = s.len() - 1;
        lemma_val_split(s.drop_last(), k);
        assert(s.drop_last().take(k) =~= s.take(k));
        assert(s.skip(k).drop_last() =~= s.drop_last().skip(k));
        assert(s.skip(k).last() == s.last());
        lemma_weight_add(k as nat, (n - k) as nat);
        let a = limbs_val(s.drop_last().skip(k)) as int;
        let l = s.last() as int;
        let wk = weight(k as nat) as int;
        let wnk = weight((n - k) as nat) as int;
        assert(limbs_val(s) == limbs_val(s.drop_last()) + l * weight(n as nat));
        assert(limbs_val(s.drop_last()) == limbs_val(s.take(k)) + a * wk);
        assert(limbs_val(s.skip(k)) == a + l * wnk);
        assert(weight(n as nat) == wk * wnk);
        assert((a + l * wnk) * wk == a * wk + l * (wk * wnk)) by (nonlinear_arith);
    }
}

/// Limbs that are all zero from position `k` on do not add to the value.
pub proof fn lemma_val_zero_tail(s: Seq<u64>, k: int)
    requires
        0 <= k <= s.len(),
        forall|j: int| k <= j < s.len() ==> s[j] == 0,
    ensures
        limbs_val(s) == limbs_val(s.take(k)),
    decreases s.len(),
{
    if s.len() > k {
        lemma_val_zero_tail(s.drop_last(), k);
        assert(s.drop_last().take(k) =~= s.take(k));
        assert(s.last() == 0);
        lemma_mul_basics(weight((s.len() - 1) as nat) as int);
    } else {
        assert(s.take(k) =~= s);
    }
}

pub proof fn lemma_val_zeros(s: Seq<u64>)
    requires
        forall|j: int| 0 <= j < s.len() ==> s[j] == 0,
    ensures
        limbs_val(s) == 0,
{
    lemma_val_zero_tail(s, 0);
}

/// One step of a carry chain: `total = lo + hi * 2^64` scaled by a weight.
pub proof fn lemma_carry_step(lo: int, hi: int, total: int, w: int)
    by (nonlinear_arith)
    requires
        total == lo + hi * limb_base(),
    ensures
        total * w == lo * w + hi * (limb_base() * w),
{
}

/// A 128-bit word is its low limb plus its high half times 2^64.
pub proof fn lemma_u128_split(x: u128)
    ensures
        x == (x as u64) + (x >> 64u128) * limb_base(),
        (x >> 64u128) < limb_base(),
{
    assert((x as u64) as u128 == x % 0x1_0000_0000_0000_0000u128) by (bit_vector);
    assert(x >> 64u128 == x / 0x1_0000_0000_0000_0000u128) by (bit_vector);
    assert(x >> 64u128 < 0x1_0000_0000_0000_0000u128) by (bit_vector);
    lemma_fundamental_div_mod(x as int, limb_base() as int);
}

/// Two sequences that agree below `k` have the same value there.
pub proof fn lemma_val_take_eq(s: Seq<u64>, t: Seq<u64>, k: int)
    requires
        0 <= k <= s.len(),
        k <= t.len(),
        forall|j: int| 0 <= j < k ==> s[j] == t[j],
    ensures
        limbs_val(s.take(k)) == limbs_val(t.take(k)),
{
    assert(s.take(k) =~= t.take(k));
}

/// The value of the first `n` limbs, limb by limb, for the small lengths used here.
pub proof fn lemma_val_prefixes(s: Seq<u64>)
    requires
        s.len() >= 1,
    ensures
        limbs_val(s.take(0)) == 0,
        limbs_val(s.take(1)) == s[0] as nat,
        s.len() >= 2 ==> limbs_val(s.take(2)) == s[0] + s[1] * weight(1),
        s.len() >= 3 ==> limbs_val(s.take(3)) == s[0] + s[1] * weight(1) + s[2] * weight(2),
        s.len() >= 4 ==> limbs_val(s.take(4)) == s[0] + s[1] * weight(1) + s[2] * weight(2) + s[3]
            * weight(3),
        s.len() >= 5 ==> limbs_val(s.take(5)) == s[0] + s[1] * weight(1) + s[2] * weight(2) + s[3]
            * weight(3) + s[4] * weight(4),
        s.len() >= 6 ==> limbs_val(s.take(6)) == s[0] + s[1] * weight(1) + s[2] * weight(2) + s[3]
            * weight(3) + s[4] * weight(4) + s[5] * weight(5),
{
    assert(s.take(0).len() == 0);
    lemma_val_take_step(s, 0);
    if s.len() >= 2 {
        lemma_val_take_step(s, 1);
    }
    if s.len() >= 3 {
        lemma_val_take_step(s, 2);
    }
    if s.len() >= 4 {
        lemma_val_take_step(s, 3);
    }
    if s.len() >= 5 {
        lemma_val_take_step(s, 4);
    }
    if s.len() >= 6 {
        lemma_val_take_step(s, 5);
    }
}

/// Limb sequences of the same length with the same value are equal.
pub proof fn lemma_val_injective(a: Seq<u64>, b: Seq<u64>)
    requires
        a.len() == b.len(),
        limbs_val(a) == limbs_val(b),
    ensures
        a == b,
    decreases a.len(),
{
    if a.len() > 0 {
        let n = (a.len() - 1) as nat;
        lemma_val_bound(a.drop_last());
        lemma_val_bound(b.drop_last());
        lemma_weight_pos(n);
        lemma_mul_is_commutative(a.last() as int, weight(n) as int);
        lemma_mul_is_commutative(b.last() as int, weight(n) as int);
        lemma_fundamental_div_mod_converse(
            limbs_val(a) as int,
            weight(n) as int,
            a.last() as int,
            limbs_val(a.drop_last()) as int,
        );
        lemma_fundamental_div_mod_converse(
            limbs_val(b) as int,
            weight(n) as int,
            b.last() as int,
            limbs_val(b.drop_last()) as int,
        );
        lemma_val_injective(a.drop_last(), b.drop_last());
        assert(a =~= a.drop_last().push(a.last()));
        assert(b =~= b.drop_last().push(b.last()));
    }
}

} // verus!
