//! Congruences modulo a positive number.
use vstd::arithmetic::div_mod::*;
use vstd::arithmetic::mul::*;
use vstd::arithmetic::power::*;
use vstd::arithmetic::power2::*;
use vstd::prelude::*;

verus! {

/// The inverse of `2^k` modulo the odd number `p`: `(p + 1) / 2` is the inverse of 2.
pub open spec fn inverse_pow2(k: nat, p: nat) -> nat {
    power((p + 1) / 2, k) % p
}

/// `b^e`.
pub open spec fn power(b: nat, e: nat) -> nat {
    pow(b as int, e) as nat
}

/// Numbers that differ by a multiple of `m` are congruent.
pub(crate) proof fn lemma_differ_by_multiple(a: int, b: int, k: int, m: int)
    requires
        m > 0,
        a == b + k * m,
    ensures
        a % m == b % m,
{
    lemma_mod_multiples_vanish(k, b, m);
    lemma_mul_is_commutative(k, m);
}

/// Products of congruent numbers are congruent.
pub(crate) proof fn lemma_product_congruent(a: int, b: int, c: int, d: int, m: int)
    requires
        m > 0,
        a % m == b % m,
        c % m == d % m,
    ensures
        (a * c) % m == (b * d) % m,
{
    lemma_mul_mod_noop_general(a, c, m);
    lemma_mul_mod_noop_general(b, d, m);
}

/// Sums of congruent numbers are congruent.
pub(crate) proof fn lemma_sum_congruent(a: int, b: int, c: int, d: int, m: int)
    requires
        m > 0,
        a % m == b % m,
        c % m == d % m,
    ensures
        (a + c) % m == (b + d) % m,
        (a - c) % m == (b - d) % m,
{
    lemma_add_mod_noop(a, c, m);
    lemma_add_mod_noop(b, d, m);
    lemma_sub_mod_noop(a, c, m);
    lemma_sub_mod_noop(b, d, m);
}

/// Powers of congruent numbers are congruent.
pub(crate) proof fn lemma_power_congruent(a: int, b: int, e: nat, m: int)
    requires
        m > 0,
        a % m == b % m,
    ensures
        pow(a, e) % m == pow(b, e) % m,
{
    lemma_pow_mod_noop(a, e, m);
    lemma_pow_mod_noop(b, e, m);
}

/// A power of a natural number is not negative.
pub(crate) proof fn lemma_power_nonnegative(a: nat, e: nat)
    ensures
        pow(a as int, e) >= 0,
    decreases e,
{
    reveal(pow);
    if e > 0 {
        lemma_power_nonnegative(a, (e - 1) as nat);
        lemma_mul_nonnegative(a as int, pow(a as int, (e - 1) as nat));
    }
}

/// How powers multiply and double.
pub(crate) proof fn lemma_power(b: nat, e: nat)
    ensures
        power(b, 0) == 1,
        power(b, e + 1) == power(b, e) * b,
        power(b, 2 * e) == power(b, e) * power(b, e),
{
    lemma_power_nonnegative(b, e);
    lemma_pow0(b as int);
    lemma_pow1(b as int);
    lemma_pow_adds(b as int, e, 1);
    lemma_pow_adds(b as int, e, e);
}

/// `power` is exponentiation.
pub proof fn law_power(b: nat, e: nat)
    ensures
        power(b, e) == pow(b as int, e),
{
    lemma_power_nonnegative(b, e);
}

/// `inverse_pow2` is what its name says.
pub proof fn law_inverse_pow2(k: nat, p: nat)
    requires
        p > 1,
        p % 2 == 1,
    ensures
        inverse_pow2(k, p) < p,
        (pow2(k) * inverse_pow2(k, p)) % p == 1,
{
    let h = ((p + 1) / 2) as int;
    let m = p as int;
    lemma_power_nonnegative((p + 1) / 2, k);
    lemma_mod_bound(pow(h, k), m);
    lemma_pow2(k);
    lemma_pow_distributes(2, h, k);
    assert(2 * h == 1 + 1 * m);
    lemma_differ_by_multiple(2 * h, 1, 1, m);
    lemma_power_congruent(2 * h, 1, k, m);
    lemma1_pow(k);
    lemma_small_mod(1, p);
    lemma_mul_mod_noop_right(pow(2, k), pow(h, k), m);
}

/// Multiplying by a number and by its inverse changes nothing.
pub(crate) proof fn lemma_times_inverse(a: int, c: int, inverse: int, m: int)
    requires
        m > 1,
        (c * inverse) % m == 1,
    ensures
        (a * c * inverse) % m == a % m,
{
    lemma_small_mod(1, m as nat);
    lemma_product_congruent(a, a, c * inverse, 1, m);
    lemma_mul_is_associative(a, c, inverse);
    lemma_mul_basics(a);
}

} // verus!
