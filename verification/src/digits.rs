//! Positional notation: the number that a sequence of limbs or bytes denotes.
use vstd::arithmetic::div_mod::*;
use vstd::arithmetic::mul::*;
use vstd::arithmetic::power2::*;
use vstd::bits::*;
use vstd::prelude::*;

verus! {

/// `2^(32n)`: the weight of limb `n`, and the number of values `n` limbs can take.
pub open spec fn radix(n: nat) -> nat {
    pow2(32 * n)
}

/// The number denoted by the `n` least significant limbs of `s`.
pub open spec fn prefix(s: Seq<u32>, n: nat) -> nat
    decreases n,
{
    if n == 0 {
        0
    } else {
        prefix(s, (n - 1) as nat) + s[n - 1] as nat * radix((n - 1) as nat)
    }
}

/// The number denoted by the little-endian limbs `s`: the sum of `s[i] * 2^(32i)`.
pub open spec fn value(s: Seq<u32>) -> nat {
    prefix(s, s.len())
}

/// The number denoted by the big-endian bytes `s`.
pub open spec fn be_value(s: Seq<u8>) -> nat
    decreases s.len(),
{
    if s.len() == 0 {
        0
    } else {
        256 * be_value(s.drop_last()) + s.last() as nat
    }
}

/// The weights of the first limbs, and how each follows from the one before.
pub(crate) proof fn lemma_radix(n: nat)
    ensures
        radix(0) == 1,
        radix(n) > 0,
        radix(n + 1) == 0x1_0000_0000 * radix(n),
{
    lemma2_to64();
    lemma_pow2_pos(32 * n);
    lemma_pow2_adds(32, 32 * n);
}

/// A prefix looks only at the limbs it covers.
pub(crate) proof fn lemma_prefix_agrees(s: Seq<u32>, t: Seq<u32>, n: nat)
    requires
        forall|i: int| 0 <= i < n ==> s[i] == t[i],
    ensures
        prefix(s, n) == prefix(t, n),
    decreases n,
{
    if n > 0 {
        lemma_prefix_agrees(s, t, (n - 1) as nat);
    }
}

/// `n` limbs denote a number below `2^(32n)`.
pub(crate) proof fn lemma_prefix_bound(s: Seq<u32>, n: nat)
    ensures
        prefix(s, n) < radix(n),
    decreases n,
{
    lemma_radix(0);
    if n > 0 {
        let m = (n - 1) as nat;
        lemma_prefix_bound(s, m);
        lemma_radix(m);
        let d = s[n - 1] as nat;
        let r = radix(m);
        assert(d * r + r <= 0x1_0000_0000 * r) by (nonlinear_arith)
            requires
                d + 1 <= 0x1_0000_0000,
        ;
    }
}

/// A larger digit outweighs everything below its position.
pub(crate) proof fn lemma_digit_dominates(low: nat, high: nat, weight: nat)
    requires
        low < high,
    ensures
        low * weight + weight <= high * weight,
{
    assert(low * weight + weight <= high * weight) by (nonlinear_arith)
        requires
            low + 1 <= high,
    ;
}

/// Limbs that are zero above position 0 denote their lowest limb.
pub(crate) proof fn lemma_prefix_single(s: Seq<u32>, n: nat)
    requires
        0 < n,
        forall|i: int| 1 <= i < n ==> s[i] == 0,
    ensures
        prefix(s, n) == s[0],
    decreases n,
{
    lemma_radix(0);
    if n > 1 {
        lemma_prefix_single(s, (n - 1) as nat);
        lemma_mul_basics(radix((n - 1) as nat) as int);
    } else {
        reveal_with_fuel(prefix, 2);
        lemma_mul_basics(s[0] as int);
    }
}

/// Limbs that are all zero denote zero.
pub(crate) proof fn lemma_prefix_zero(s: Seq<u32>, n: nat)
    requires
        forall|i: int| 0 <= i < n ==> s[i] == 0,
    ensures
        prefix(s, n) == 0,
    decreases n,
{
    if n > 0 {
        lemma_prefix_zero(s, (n - 1) as nat);
        lemma_mul_basics(radix((n - 1) as nat) as int);
    }
}

/// Modulo `2^32`, and so modulo 2 and 4, a number is its lowest limb.
pub(crate) proof fn lemma_lowest_limb(s: Seq<u32>, n: nat)
    requires
        0 < n,
    ensures
        prefix(s, n) % 0x1_0000_0000 == s[0],
        prefix(s, n) % 4 == s[0] % 4,
        prefix(s, n) % 2 == s[0] % 2,
    decreases n,
{
    lemma_radix(0);
    if n > 1 {
        let m = (n - 1) as nat;
        lemma_lowest_limb(s, m);
        lemma_radix((n - 2) as nat);
        let d = s[n - 1] as nat;
        let w = radix((n - 2) as nat);
        assert(d * (0x1_0000_0000 * w) == 0x1_0000_0000 * (d * w)) by (nonlinear_arith);
    } else {
        reveal_with_fuel(prefix, 2);
        lemma_mul_basics(s[0] as int);
    }
}

/// The lowest `n` limbs are determined by the number that they denote.
pub(crate) proof fn lemma_prefix_injective(s: Seq<u32>, t: Seq<u32>, n: nat)
    requires
        prefix(s, n) == prefix(t, n),
    ensures
        forall|i: int| 0 <= i < n ==> s[i] == t[i],
    decreases n,
{
    if n > 0 {
        let m = (n - 1) as nat;
        lemma_prefix_bound(s, m);
        lemma_prefix_bound(t, m);
        if s[n - 1] < t[n - 1] {
            lemma_digit_dominates(s[n - 1] as nat, t[n - 1] as nat, radix(m));
        } else if t[n - 1] < s[n - 1] {
            lemma_digit_dominates(t[n - 1] as nat, s[n - 1] as nat, radix(m));
        }
        lemma_prefix_injective(s, t, m);
    }
}

/// A number has one representation in a given number of limbs.
pub proof fn law_limbs_unique(s: Seq<u32>, t: Seq<u32>)
    requires
        s.len() == t.len(),
        value(s) == value(t),
    ensures
        s == t,
{
    lemma_prefix_injective(s, t, s.len());
    assert(s =~= t);
}

/// Splitting limbs at position `k`: the limbs above `k` denote the number that is returned.
pub(crate) proof fn lemma_split_at(s: Seq<u32>, k: nat, n: nat) -> (above: nat)
    requires
        k < n,
    ensures
        prefix(s, n) == prefix(s, k) + (s[k as int] + 0x1_0000_0000 * above) * radix(k),
    decreases n,
{
    let w = radix(k);
    let d = s[k as int] as nat;
    if n == k + 1 {
        0
    } else {
        let above = lemma_split_at(s, k, (n - 1) as nat);
        let gap = (n - 2 - k) as nat;
        lemma_pow2_adds(32 * k, 32 * gap);
        lemma_radix((k + gap) as nat);
        let e = s[n - 1] as nat;
        let u = radix(gap);
        assert((d + 0x1_0000_0000 * above) * w + e * (0x1_0000_0000 * (w * u)) == (d + 0x1_0000_0000 * (above + e
            * u)) * w) by (nonlinear_arith);
        above + e * u
    }
}

/// Reading off bit `i`: what lies above bit `i - 1` is twice what lies above bit `i`, plus bit `i`.
pub(crate) proof fn lemma_bit(s: Seq<u32>, i: nat)
    requires
        i < 32 * s.len(),
    ensures
        value(s) / pow2(i) == 2 * (value(s) / pow2(i + 1)) + ((s[i as int / 32] >> ((i % 32) as u32)) & 1),
        (s[i as int / 32] >> ((i % 32) as u32)) & 1 <= 1,
{
    let v = value(s) as int;
    let k = i / 32;
    let j = i % 32;
    let word = s[k as int];
    let above = lemma_split_at(s, k, s.len());
    let w = word + 0x1_0000_0000 * above;
    lemma_radix(k);
    lemma_prefix_bound(s, k);
    lemma_fundamental_div_mod_converse(v, radix(k) as int, w as int, prefix(s, k) as int);
    lemma_pow2_pos(j);
    lemma_pow2_adds(32 * k, j);
    lemma_div_denominator(v, radix(k) as int, pow2(j) as int);
    assert(v / pow2(i) as int == w / pow2(j) as int);
    lemma_pow2_adds(j, (32 - j) as nat);
    lemma_pow2_unfold((32 - j) as nat);
    lemma2_to64();
    let half = pow2((31 - j) as nat);
    let d = pow2(j);
    assert(0x1_0000_0000 * above == (2 * (half * above)) * d) by (nonlinear_arith)
        requires
            0x1_0000_0000 == d * (2 * half),
    ;
    lemma_hoist_over_denominator(word as int, (2 * (half * above)) as int, d);
    lemma_u32_shr_is_div(word, j as u32);
    let shifted = word >> (j as u32);
    assert(shifted & 1 == shifted % 2) by (bit_vector);
    lemma_pow2_pos(i);
    lemma_pow2_adds(i, 1);
    lemma_div_denominator(v, pow2(i) as int, 2);
}

/// The number denoted by bytes `s` followed by bytes `t`.
pub(crate) proof fn lemma_be_concat(s: Seq<u8>, t: Seq<u8>)
    ensures
        be_value(s + t) == be_value(s) * pow2(8 * t.len()) + be_value(t),
    decreases t.len(),
{
    lemma2_to64();
    if t.len() == 0 {
        assert(s + t =~= s);
        lemma_mul_basics(be_value(s) as int);
    } else {
        let front = t.drop_last();
        assert((s + t).drop_last() =~= s + front);
        lemma_be_concat(s, front);
        lemma_pow2_adds(8, 8 * front.len());
        let v = be_value(s);
        let w = pow2(8 * front.len());
        assert(256 * (v * w) == v * (256 * w)) by (nonlinear_arith);
        assert((s + t).last() == t.last());
        assert(8 * t.len() == 8 + 8 * front.len());
    }
}

/// A number has one representation in a given number of bytes.
pub proof fn law_bytes_unique(s: Seq<u8>, t: Seq<u8>)
    requires
        s.len() == t.len(),
        be_value(s) == be_value(t),
    ensures
        s == t,
    decreases s.len(),
{
    if s.len() > 0 {
        law_bytes_unique(s.drop_last(), t.drop_last());
        assert(s =~= s.drop_last().push(s.last()));
        assert(t =~= t.drop_last().push(t.last()));
    } else {
        assert(s =~= t);
    }
}

/// What limbs denote: none denote zero, and a further limb `d` on top counts `d * 2^(32n)`, `n` being
/// the number of limbs below it.
pub proof fn law_limbs_append(s: Seq<u32>, d: u32)
    ensures
        value(Seq::<u32>::empty()) == 0,
        value(s.push(d)) == value(s) + d * pow2(32 * s.len()),
        radix(s.len()) == pow2(32 * s.len()),
{
    lemma_prefix_agrees(s, s.push(d), s.len());
}

/// What bytes denote: none denote zero, and a further byte `b` at the end multiplies by 256 and adds `b`.
pub proof fn law_bytes_append(s: Seq<u8>, b: u8)
    ensures
        be_value(Seq::<u8>::empty()) == 0,
        be_value(s.push(b)) == 256 * be_value(s) + b,
{
    assert(s.push(b).drop_last() =~= s);
}

/// The first `n` limbs denote what they would denote alone.
pub proof fn law_prefix(s: Seq<u32>, n: nat)
    requires
        n <= s.len(),
    ensures
        prefix(s, n) == value(s.take(n as int)),
{
    lemma_prefix_agrees(s, s.take(n as int), n);
}

/// The weights of limbs are the powers of `2^32`.
pub proof fn law_radix(n: nat)
    ensures
        radix(n) == pow2(32 * n),
{
}

/// The numbers that limbs can denote are those below `2^(32n)`, `n` being the number of limbs.
pub proof fn law_limbs_bound(s: Seq<u32>)
    ensures
        value(s) < radix(s.len()),
{
    lemma_prefix_bound(s, s.len());
}

/// The number denoted by four bytes.
pub(crate) proof fn lemma_be_word(s: Seq<u8>)
    requires
        s.len() == 4,
    ensures
        be_value(s) == 0x100_0000 * s[0] + 0x1_0000 * s[1] + 0x100 * s[2] + s[3],
{
    reveal_with_fuel(be_value, 5);
}

/// Putting the word `w`, as four bytes, in front of `4n` bytes adds the limb `w` at position `n`.
pub(crate) proof fn lemma_be_prepend(word: Seq<u8>, rest: Seq<u8>, w: u32, n: nat)
    requires
        word.len() == 4,
        rest.len() == 4 * n,
        w == 0x100_0000 * word[0] + 0x1_0000 * word[1] + 0x100 * word[2] + word[3],
    ensures
        be_value(word + rest) == w as nat * radix(n) + be_value(rest),
{
    lemma_be_concat(word, rest);
    lemma_be_word(word);
}

/// Splitting a digit sum into its low digit and its carry.
pub(crate) proof fn lemma_carry(sum: nat, low: nat, high: nat, n: nat)
    requires
        sum == low + 0x1_0000_0000 * high,
    ensures
        low * radix(n) + high * radix(n + 1) == sum * radix(n),
{
    lemma_radix(n);
    let r = radix(n);
    assert(low * r + high * (0x1_0000_0000 * r) == (low + 0x1_0000_0000 * high) * r) by (nonlinear_arith);
}

} // verus!
