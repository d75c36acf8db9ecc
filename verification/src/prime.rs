//! Prime moduli: Euclid's lemma, Fermat's little theorem, and square roots.
use crate::digits;
use crate::modular;
use vstd::arithmetic::div_mod::*;
use vstd::arithmetic::mul::*;
use vstd::arithmetic::power::*;
use vstd::prelude::*;

verus! {

/// `p` is prime: above 1, and divisible by nothing strictly between 1 and itself.
pub open spec fn is_prime(p: nat) -> bool {
    &&& p > 1
    &&& forall|d: nat| 1 < d < p ==> #[trigger] (p % d) != 0
}

/// A prime is above 1, and of two numbers whose product it is, one is 1.
pub proof fn law_prime_has_no_factors(p: nat, a: nat, b: nat)
    requires
        is_prime(p),
        a * b == p,
    ensures
        p > 1,
        a == 1 || b == 1,
{
    lemma_mul_basics(a as int);
    lemma_mul_basics(b as int);
    if a != 1 && b != 1 {
        assert(1 < a < p) by (nonlinear_arith)
            requires
                a * b == p,
                p > 1,
                a != 1,
                b != 1,
        ;
        lemma_mul_is_commutative(a as int, b as int);
        lemma_mod_multiples_basic(b as int, a as int);
        assert(p % a == 0);
    }
}

/// A number above 1 that is not prime is a product of two numbers strictly between 1 and itself.
pub proof fn law_composite_has_factors(p: nat) -> (factors: (nat, nat))
    requires
        p > 1,
        !is_prime(p),
    ensures
        factors.0 * factors.1 == p,
        1 < factors.0 < p,
        1 < factors.1 < p,
{
    let d = choose|d: nat| 1 < d < p && #[trigger] (p % d) == 0;
    let e = p / d;
    lemma_fundamental_div_mod(p as int, d as int);
    assert(1 < e < p) by (nonlinear_arith)
        requires
            d * e == p,
            1 < d < p,
    ;
    (d, e)
}

/// Binomial coefficients, by Pascal's rule.
spec fn binomial(n: nat, k: nat) -> nat
    decreases n,
{
    if k == 0 {
        1
    } else if n == 0 {
        0
    } else {
        binomial((n - 1) as nat, (k - 1) as nat) + binomial((n - 1) as nat, k)
    }
}

/// The terms of `(a + 1)^n` up to degree `k`.
spec fn expansion(a: nat, n: nat, k: nat) -> nat
    decreases k,
{
    let term = binomial(n, k) * modular::power(a, k);
    if k == 0 {
        term
    } else {
        expansion(a, n, (k - 1) as nat) + term
    }
}

/// A multiple `k` of the prime `p` that is also `a` times `b`, with `0 < a < p`, makes `b` a multiple
/// of `p`, of the factor that is returned.
proof fn lemma_factor_out(p: nat, a: nat, b: int, k: int) -> (j: int)
    requires
        is_prime(p),
        0 < a < p,
        a * b == k * p,
    ensures
        b == j * p,
    decreases a,
{
    if a == 1 {
        lemma_mul_basics(b);
        k
    } else {
        let rest = p % a;
        let times = p / a;
        lemma_fundamental_div_mod(p as int, a as int);
        assert(rest * b == (b - times * k) * p) by (nonlinear_arith)
            requires
                p == a * times + rest,
                a * b == k * p,
        ;
        lemma_factor_out(p, rest, b, b - times * k)
    }
}

/// Euclid's lemma: a prime that divides a product divides a factor.
pub proof fn law_euclid(p: nat, a: int, b: int)
    requires
        is_prime(p),
        (a * b) % p as int == 0,
    ensures
        a % p as int == 0 || b % p as int == 0,
{
    let m = p as int;
    if a % m != 0 {
        let r = a % m;
        lemma_mul_mod_noop_left(a, b, m);
        lemma_fundamental_div_mod(r * b, m);
        let k = (r * b) / m;
        lemma_mul_is_commutative(m, k);
        let j = lemma_factor_out(p, r as nat, b, k);
        lemma_mod_multiples_basic(j, m);
    }
}

/// Where Pascal's triangle ends.
proof fn lemma_binomial_edge(n: nat, k: nat)
    requires
        k >= n,
    ensures
        binomial(n, k) == if k == n { 1nat } else { 0 },
    decreases n,
{
    if n > 0 {
        lemma_binomial_edge((n - 1) as nat, (k - 1) as nat);
        lemma_binomial_edge((n - 1) as nat, k);
    }
}

/// The absorption identity.
proof fn lemma_binomial_absorbs(n: nat, k: nat)
    requires
        n > 0,
        k > 0,
    ensures
        k * binomial(n, k) == n * binomial((n - 1) as nat, (k - 1) as nat),
    decreases n,
{
    let n1 = (n - 1) as nat;
    let k1 = (k - 1) as nat;
    if n == 1 {
        lemma_binomial_edge(1, k);
        lemma_binomial_edge(0, k1);
        lemma_mul_basics(k as int);
        lemma_mul_basics(binomial(0, k1) as int);
    } else if k == 1 {
        lemma_binomial_absorbs(n1, 1);
        lemma_mul_basics(n as int);
        lemma_mul_basics(n1 as int);
    } else {
        lemma_binomial_absorbs(n1, k1);
        lemma_binomial_absorbs(n1, k);
        let n2 = (n - 2) as nat;
        let k2 = (k - 2) as nat;
        let u = binomial(n1, k1);
        let v = binomial(n1, k);
        let x = binomial(n2, k2);
        let y = binomial(n2, k1);
        assert(u == x + y);
        assert(k * (u + v) == n * u) by (nonlinear_arith)
            requires
                (k - 1) * u == (n - 1) * x,
                k * v == (n - 1) * y,
                u == x + y,
        ;
    }
}

/// A prime divides the inner entries of its row in Pascal's triangle.
proof fn lemma_prime_divides_binomial(p: nat, k: nat)
    requires
        is_prime(p),
        0 < k < p,
    ensures
        binomial(p, k) % p == 0,
{
    lemma_binomial_absorbs(p, k);
    let c = binomial((p - 1) as nat, (k - 1) as nat) as int;
    lemma_mul_is_commutative(p as int, c);
    lemma_mod_multiples_basic(c, p as int);
    law_euclid(p, k as int, binomial(p, k) as int);
    lemma_small_mod(k, p);
}

/// Pascal's rule on expansions.
proof fn lemma_expansion_step(a: nat, n: nat, k: nat)
    requires
        n > 0,
        k > 0,
    ensures
        expansion(a, n, k) == expansion(a, (n - 1) as nat, k) + a * expansion(a, (n - 1) as nat, (k - 1) as nat),
    decreases k,
{
    let n1 = (n - 1) as nat;
    let k1 = (k - 1) as nat;
    modular::lemma_power(a, k1);
    modular::lemma_power(a, 0);
    let t = modular::power(a, k1);
    let u = binomial(n1, k1);
    let v = binomial(n1, k);
    assert((u + v) * (t * a) == v * (t * a) + a * (u * t)) by (nonlinear_arith);
    if k == 1 {
        reveal_with_fuel(expansion, 2);
    } else {
        lemma_expansion_step(a, n, k1);
        let below = expansion(a, n1, (k - 2) as nat);
        assert(a * (below + u * t) == a * below + a * (u * t)) by (nonlinear_arith);
    }
}

/// The binomial theorem.
proof fn lemma_binomial_theorem(a: nat, n: nat, k: nat)
    requires
        k >= n,
    ensures
        expansion(a, n, k) == modular::power(a + 1, n),
    decreases n, k,
{
    modular::lemma_power(a, 0);
    modular::lemma_power(a + 1, 0);
    if n == 0 {
        if k > 0 {
            lemma_binomial_theorem(a, 0, (k - 1) as nat);
            lemma_binomial_edge(0, k);
            lemma_mul_basics(modular::power(a, k) as int);
        }
    } else {
        let n1 = (n - 1) as nat;
        lemma_expansion_step(a, n, k);
        lemma_binomial_theorem(a, n1, k);
        lemma_binomial_theorem(a, n1, (k - 1) as nat);
        modular::lemma_power(a + 1, n1);
        let t = modular::power(a + 1, n1);
        assert(t * (a + 1) == t + a * t) by (nonlinear_arith);
    }
}

/// Short of the last term, `(a + 1)^p` is 1 modulo the prime `p`.
proof fn lemma_expansion_inner(a: nat, p: nat, k: nat)
    requires
        is_prime(p),
        k < p,
    ensures
        expansion(a, p, k) % p == 1,
    decreases k,
{
    modular::lemma_power(a, 0);
    lemma_small_mod(1, p);
    lemma_mul_basics(1);
    if k > 0 {
        let k1 = (k - 1) as nat;
        lemma_expansion_inner(a, p, k1);
        lemma_prime_divides_binomial(p, k);
        let c = binomial(p, k) as int;
        let t = modular::power(a, k) as int;
        lemma_mul_mod_noop_left(c, t, p as int);
        lemma_mul_basics(t);
        lemma_small_mod(0, p);
        lemma_add_mod_noop(expansion(a, p, k1) as int, c * t, p as int);
    }
}

/// Fermat's little theorem: `a^p` is `a` modulo the prime `p`.
pub proof fn law_fermat(a: nat, p: nat)
    requires
        is_prime(p),
    ensures
        modular::power(a, p) % p == a % p,
    decreases a,
{
    if a == 0 {
        lemma0_pow(p);
    } else {
        let b = (a - 1) as nat;
        law_fermat(b, p);
        lemma_binomial_theorem(b, p, p);
        lemma_expansion_inner(b, p, (p - 1) as nat);
        lemma_binomial_edge(p, p);
        let t = modular::power(b, p) as int;
        lemma_mul_basics(t);
        lemma_small_mod(1, p);
        modular::lemma_sum_congruent(expansion(b, p, (p - 1) as nat) as int, 1, t, b as int, p as int);
    }
}

/// Since `p = 3 mod 4`, a square root of a square `r` is `r^((p+1)/4)`.
pub proof fn law_square_root(p: nat, r: nat, s: nat)
    requires
        is_prime(p),
        p % 4 == 3,
        (s * s) % p == r % p,
    ensures
        ({
            let c = modular::power(r, (p + 1) / 4);
            (c * c) % p == r % p
        }),
{
    let e = (p + 1) / 4;
    let m = p as int;
    let c = modular::power(r, e);
    modular::lemma_power_nonnegative(r, e);
    modular::lemma_power_nonnegative(s, 2 * e);
    modular::lemma_power_congruent(r as int, (s * s) as int, e, m);
    lemma_square_is_pow2(s as int);
    lemma_pow_multiplies(s as int, 2, e);
    let root = modular::power(s, 2 * e);
    assert(c as int % m == root as int % m);
    modular::lemma_product_congruent(c as int, root as int, c as int, root as int, m);
    modular::lemma_power(s, 2 * e);
    assert(2 * (2 * e) == p + 1);
    modular::lemma_power(s, p);
    law_fermat(s, p);
    modular::lemma_product_congruent(modular::power(s, p) as int, s as int, s as int, s as int, m);
}

/// Modulo an odd prime, two roots of the same square are equal or add up to the modulus.
pub proof fn law_two_roots(p: nat, y: nat, z: nat)
    requires
        is_prime(p),
        y < p,
        z < p,
        (y * y) % p == (z * z) % p,
    ensures
        y == z || y + z == p,
{
    let m = p as int;
    modular::lemma_sum_congruent((y * y) as int, (z * z) as int, (z * z) as int, (z * z) as int, m);
    lemma_small_mod(0, p);
    assert((y - z) * (y + z) == y * y - z * z) by (nonlinear_arith);
    law_euclid(p, y - z, (y + z) as int);
    if (y - z) % m == 0 {
        lemma_fundamental_div_mod(y - z, m);
        let k = (y - z) / m;
        assert(k == 0) by (nonlinear_arith)
            requires
                -m < m * k < m,
                m > 0,
        ;
    } else {
        lemma_fundamental_div_mod((y + z) as int, m);
        let k = (y + z) as int / m;
        assert(k == 0 || k == 1) by (nonlinear_arith)
            requires
                0 <= m * k < 2 * m,
                m > 0,
        ;
    }
}

/// `2^(32n) - 1` is divisible by 3, and not prime.
pub(crate) proof fn lemma_all_ones_composite(n: nat)
    requires
        n > 0,
    ensures
        !is_prime((digits::radix(n) - 1) as nat),
{
    lemma_radix_mod_three(n);
    digits::lemma_radix((n - 1) as nat);
    assert((digits::radix(n) - 1) as nat % 3 == 0);
}

/// Every `2^(32n)` is 1 modulo 3.
proof fn lemma_radix_mod_three(n: nat)
    ensures
        digits::radix(n) % 3 == 1,
    decreases n,
{
    digits::lemma_radix(0);
    if n > 0 {
        lemma_radix_mod_three((n - 1) as nat);
        digits::lemma_radix((n - 1) as nat);
    }
}

} // verus!
