//! Point decompression on short Weierstrass curves with `a = -3`.
use crate::digits;
use crate::limbs;
use crate::limbs::Fe;
use crate::modular;
use crate::montgomery;
use crate::montgomery::Field;
use crate::prime;
use vstd::arithmetic::div_mod::*;
use vstd::arithmetic::mul::*;
use vstd::arithmetic::power::*;
use vstd::arithmetic::power2::*;
use vstd::prelude::*;

verus! {

/// `x^3 - 3x + b` modulo `p`.
pub open spec fn curve_rhs(p: nat, b: nat, x: nat) -> nat {
    ((x * x * x - 3 * x + b) % p as int) as nat
}

/// `(x, y)` is a point of `y^2 = x^3 - 3x + b` over `p`, in canonical coordinates.
pub open spec fn is_point(p: nat, b: nat, x: nat, y: nat) -> bool {
    &&& x < p
    &&& y < p
    &&& (y * y) % p == curve_rhs(p, b, x)
}

/// Whether `y` has the parity that `odd` asks for.
pub open spec fn has_parity(y: nat, odd: bool) -> bool {
    odd == (y % 2 == 1)
}

/// The candidate for a square root of `x^3 - 3x + b`: its power `(p+1)/4`, with `p + 1` taken in `n`
/// limbs. Only for `p = 2^(32n) - 1`, which is never prime, does `p + 1` not fit.
pub open spec fn root_candidate(p: nat, b: nat, x: nat, n: nat) -> nat {
    modular::power(curve_rhs(p, b, x), ((p + 1) % digits::radix(n)) / 4) % p
}

/// What decompression of `x` gives: the candidate or its negative, whichever has the right parity, if
/// `x` is canonical and the candidate is a root. Zero has no odd negative.
pub open spec fn decompressed(p: nat, b: nat, x: nat, odd: bool, n: nat) -> Option<nat> {
    let c = root_candidate(p, b, x, n);
    if x >= p || (c * c) % p != curve_rhs(p, b, x) {
        None
    } else if has_parity(c, odd) {
        Some(c)
    } else if c != 0 {
        Some((p - c) as nat)
    } else {
        None
    }
}

/// A quarter of `e`, rounded down.
fn quarter<const L: usize>(e: &Fe<L>) -> (out: Fe<L>)
    requires
        L > 0,
    ensures
        digits::value(out@) == digits::value(e@) / 4,
{
    let mut out = [0u32; L];
    let mut i: usize = 0;
    proof {
        digits::lemma_radix(0);
        lemma_mul_basics((e[0] % 4) as int);
    }
    while i < L
        invariant
            L > 0,
            i <= L,
            4 * digits::prefix(out@, i as nat) + e[0] % 4 == digits::prefix(e@, i as nat) + (if i < L {
                (e[i as int] % 4) as nat
            } else {
                0
            }) * digits::radix(i as nat),
        decreases L - i,
    {
        let low = e[i];
        let next: u32 = if i + 1 < L {
            e[i + 1]
        } else {
            0
        };
        let ghost before = out@;
        let digit = (low >> 2) | (next << 30);
        out[i] = digit;
        proof {
            assert(4 * ((low >> 2) | (next << 30)) == low - low % 4 + 0x1_0000_0000 * (next % 4)) by (bit_vector);
            digits::lemma_prefix_agrees(before, out@, i as nat);
            digits::lemma_radix(i as nat);
            let r = digits::radix(i as nat);
            let d = digit as nat;
            let l = low as nat;
            let k = (next % 4) as nat;
            let j = (low % 4) as nat;
            assert(4 * (d * r) + j * r == l * r + k * (0x1_0000_0000 * r)) by (nonlinear_arith)
                requires
                    4 * d + j == l + 0x1_0000_0000 * k,
            ;
            lemma_mul_basics(digits::radix((i + 1) as nat) as int);
        }
        i = i + 1;
    }
    proof {
        lemma_mul_basics(digits::radix(L as nat) as int);
    }
    out
}

/// The root of `x^3 - 3x + b` modulo `p` whose parity matches `odd`.
fn find_root<const L: usize>(p: &Fe<L>, b: &Fe<L>, x: &Fe<L>, odd: bool) -> (res: Option<Fe<L>>)
    requires
        64 * L <= usize::MAX,
        digits::value(p@) % 4 == 3,
    ensures
        res is Some <==> decompressed(
            digits::value(p@),
            digits::value(b@),
            digits::value(x@),
            odd,
            L as nat,
        ) is Some,
        res matches Some(root) ==> decompressed(
            digits::value(p@),
            digits::value(b@),
            digits::value(x@),
            odd,
            L as nat,
        ) == Some(digits::value(root@)),
{
    let ghost n = L as nat;
    let ghost vp = digits::value(p@);
    let ghost vb = digits::value(b@);
    let ghost vx = digits::value(x@);
    let ghost z = curve_rhs(vp, vb, vx);
    let ghost c = root_candidate(vp, vb, vx, n);
    proof {
        digits::lemma_prefix_bound(p@, n);
    }
    if !limbs::lt(x, p) {
        return None;
    }
    let f = Field::new(*p);
    let xm = f.enter(x);
    let xx = f.mul(&xm, &xm);
    let three = f.enter(&limbs::small(3));
    let factor = f.sub(&xx, &three);
    let product = f.mul(&factor, &xm);
    let constant = f.enter(b);
    let rhs = f.add(&product, &constant);
    proof {
        montgomery::law_product_of_forms(vx, vx, vp, n);
        montgomery::law_difference_of_forms(vx * vx, 3, vp, n);
        let w = ((vx * vx - 3) % vp as int) as nat;
        montgomery::law_product_of_forms(w, vx, vp, n);
        montgomery::law_sum_of_forms(w * vx, vb, vp, n);
        lemma_rhs(vp, vb, vx, w);
        montgomery::lemma_form_of_congruent(w * vx + vb, z, vp, n);
        assert(digits::value(rhs@) == montgomery::to_montgomery(z, vp, n));
    }

    // Since p = 3 mod 4, a square root of a square `r` is `r^((p+1)/4)`.
    let (e, carry) = limbs::add(p, &limbs::small(1));
    proof {
        digits::lemma_prefix_bound(e@, n);
        if carry {
            lemma_mod_self_0(digits::radix(n) as int);
        } else {
            lemma_small_mod(vp + 1, digits::radix(n));
        }
        assert(digits::value(e@) == (vp + 1) % digits::radix(n));
    }
    let exp = quarter(&e);
    let ym = f.pow(&rhs, &exp);
    let square = f.mul(&ym, &ym);
    let ghost t = modular::power(z, digits::value(exp@));
    proof {
        lemma_mod_bound(vx * vx * vx - 3 * vx + vb, vp as int);
        montgomery::law_leave_enter(z, vp, n);
        lemma_small_mod(z, vp);
        montgomery::law_product_of_forms(t, t, vp, n);
        montgomery::law_leave_enter(t * t, vp, n);
        montgomery::law_leave_enter(t, vp, n);
        if (t * t) % vp == z {
            montgomery::lemma_form_of_congruent(t * t, z, vp, n);
        }
        lemma_mod_twice(t as int, vp as int);
        modular::lemma_product_congruent(c as int, t as int, c as int, t as int, vp as int);
        lemma_mod_bound(t as int, vp as int);
    }
    if !limbs::same(&square, &rhs) {
        return None;
    }
    let mut root = f.leave(&ym);
    proof {
        let low = root[0];
        assert(low & 1 == low % 2) by (bit_vector);
        digits::lemma_lowest_limb(root@, n);
    }
    if (root[0] & 1 == 1) != odd {
        let zero = [0u32; L];
        proof {
            digits::lemma_prefix_zero(zero@, n);
        }
        if limbs::same(&root, &zero) {
            return None;
        }
        let negated = limbs::sub(p, &root);
        proof {
            digits::lemma_prefix_bound(negated.0@, n);
        }
        root = negated.0;
    }
    Some(root)
}

/// Recover `y` from `x` on `y^2 = x^3 - 3x + b` over `p`, picking the root
/// whose parity matches `odd`. All values are big-endian, `4L` bytes.
///
/// Requires `p = 3 mod 4`. Returns `false` if `x` is not the X coordinate of
/// a point on the curve.
pub fn decompress_y<const L: usize>(p: &[u8], b: &[u8], x: &[u8], odd: bool, y: &mut [u8]) -> (res: bool)
    requires
        64 * L <= usize::MAX,
        p@.len() == 4 * L,
        b@.len() == 4 * L,
        x@.len() == 4 * L,
        old(y)@.len() == 4 * L,
        digits::be_value(p@) % 4 == 3,
    ensures
        final(y)@.len() == 4 * L,
        !res ==> final(y)@ == old(y)@,
        res == decompressed(
            digits::be_value(p@),
            digits::be_value(b@),
            digits::be_value(x@),
            odd,
            L as nat,
        ) is Some,
        res ==> digits::be_value(final(y)@) == decompressed(
            digits::be_value(p@),
            digits::be_value(b@),
            digits::be_value(x@),
            odd,
            L as nat,
        )->0,
        res ==> has_parity(digits::be_value(final(y)@), odd) && is_point(
            digits::be_value(p@),
            digits::be_value(b@),
            digits::be_value(x@),
            digits::be_value(final(y)@),
        ),
        prime::is_prime(digits::be_value(p@)) ==> (res <==> exists|v: nat| #[trigger]
            is_point(digits::be_value(p@), digits::be_value(b@), digits::be_value(x@), v) && has_parity(v, odd)),
        prime::is_prime(digits::be_value(p@)) ==> forall|v: nat| #[trigger]
            is_point(digits::be_value(p@), digits::be_value(b@), digits::be_value(x@), v) && has_parity(v, odd)
                ==> res && digits::be_value(final(y)@) == v,
        res ==> digits::be_value(x@) < digits::be_value(p@),
        res ==> digits::be_value(final(y)@) < digits::be_value(p@),
        res ==> (digits::be_value(final(y)@) % 2 == 1) == odd,
        res ==> (digits::be_value(final(y)@) * digits::be_value(final(y)@)) % digits::be_value(p@) == (
        digits::be_value(x@) * digits::be_value(x@) * digits::be_value(x@) - 3 * digits::be_value(x@)
            + digits::be_value(b@)) % digits::be_value(p@) as int,
        prime::is_prime(digits::be_value(p@)) ==> forall|v: nat|
            #![trigger v % 2]
            digits::be_value(x@) < digits::be_value(p@) && v < digits::be_value(p@) && (v % 2 == 1) == odd && (v * v)
                % digits::be_value(p@) == (digits::be_value(x@) * digits::be_value(x@) * digits::be_value(x@) - 3
                * digits::be_value(x@) + digits::be_value(b@)) % digits::be_value(p@) as int ==> res
                && digits::be_value(final(y)@) == v,
        ({
            let m = digits::be_value(p@) as int;
            let z = (digits::be_value(x@) * digits::be_value(x@) * digits::be_value(x@) - 3 * digits::be_value(x@)
                + digits::be_value(b@)) % m;
            let c = pow(z, ((digits::be_value(p@) + 1) % pow2((32 * L) as nat)) / 4) % m;
            &&& res <==> digits::be_value(x@) < m && (c * c) % m == z && (c != 0 || !odd)
            &&& res ==> digits::be_value(final(y)@) == if (c % 2 == 1) == odd { c } else { m - c }
        }),
{
    let p: Fe<L> = limbs::from_be(p);
    let b: Fe<L> = limbs::from_be(b);
    let x: Fe<L> = limbs::from_be(x);
    proof {
        digits::lemma_prefix_bound(p@, L as nat);
        lemma_decompressed(digits::value(p@), digits::value(b@), digits::value(x@), odd, L as nat);
    }
    match find_root(&p, &b, &x, odd) {
        None => false,
        Some(root) => {
            limbs::to_be(&root, y);
            true
        },
    }
}

/// What is decompressed is a point of the right parity, and over a prime every point is recovered.
proof fn lemma_decompressed(p: nat, b: nat, x: nat, odd: bool, n: nat)
    requires
        p % 4 == 3,
        p < digits::radix(n),
    ensures
        decompressed(p, b, x, odd, n) matches Some(y) ==> {
            &&& is_point(p, b, x, y) && has_parity(y, odd)
            &&& x < p && y < p
            &&& (y % 2 == 1) == odd
            &&& (y * y) % p == (x * x * x - 3 * x + b) % p as int
        },
        prime::is_prime(p) ==> forall|v: nat| #[trigger]
            is_point(p, b, x, v) && has_parity(v, odd) ==> decompressed(p, b, x, odd, n) == Some(v),
        prime::is_prime(p) ==> forall|v: nat| #![trigger v % 2]
            x < p && v < p && (v % 2 == 1) == odd && (v * v) % p == (x * x * x - 3 * x + b) % p as int
                ==> decompressed(p, b, x, odd, n) == Some(v),
        ({
            let m = p as int;
            let z = (x * x * x - 3 * x + b) % m;
            let c = pow(z, ((p + 1) % pow2(32 * n)) / 4) % m;
            &&& decompressed(p, b, x, odd, n) is Some <==> x < m && (c * c) % m == z && (c != 0 || !odd)
            &&& decompressed(p, b, x, odd, n) is Some ==> decompressed(p, b, x, odd, n)->0 == if (c % 2 == 1)
                == odd {
                c
            } else {
                m - c
            }
        }),
{
    let rhs = x * x * x - 3 * x + b;
    lemma_mod_bound(rhs, p as int);
    modular::law_power(curve_rhs(p, b, x), ((p + 1) % digits::radix(n)) / 4);
    lemma_mod_bound(pow(rhs % p as int, ((p + 1) % pow2(32 * n)) / 4), p as int);
    if decompressed(p, b, x, odd, n) is Some {
        law_decompressed_on_curve(p, b, x, odd, n);
    }
    if prime::is_prime(p) {
        assert forall|v: nat| #[trigger] is_point(p, b, x, v) && has_parity(v, odd) implies decompressed(
            p,
            b,
            x,
            odd,
            n,
        ) == Some(v) by {
            law_point_recovered(p, b, x, v, odd, n);
        }
        assert forall|v: nat| #![trigger v % 2]
            x < p && v < p && (v % 2 == 1) == odd && (v * v) % p == rhs % p as int implies decompressed(
            p,
            b,
            x,
            odd,
            n,
        ) == Some(v) by {
            law_point_recovered(p, b, x, v, odd, n);
        }
    }
}

/// What is decompressed is the `y` of a point with this `x`, of the parity asked for, whether or not
/// the odd modulus is prime.
pub proof fn law_decompressed_on_curve(p: nat, b: nat, x: nat, odd: bool, n: nat)
    requires
        p % 2 == 1,
        decompressed(p, b, x, odd, n) is Some,
    ensures
        is_point(p, b, x, decompressed(p, b, x, odd, n)->0),
        has_parity(decompressed(p, b, x, odd, n)->0, odd),
        ({
            let y = decompressed(p, b, x, odd, n)->0;
            &&& x < p
            &&& y < p
            &&& (y % 2 == 1) == odd
            &&& (y * y) % p == (x * x * x - 3 * x + b) % p as int
        }),
{
    let c = root_candidate(p, b, x, n);
    let t = modular::power(curve_rhs(p, b, x), ((p + 1) % digits::radix(n)) / 4);
    lemma_mod_bound(t as int, p as int);
    if !has_parity(c, odd) {
        lemma_negated_root(p, c);
    }
    lemma_mod_bound(x * x * x - 3 * x + b, p as int);
}

/// Factoring the right-hand side as `(x^2 - 3) * x + b`.
proof fn lemma_rhs(p: nat, b: nat, x: nat, w: nat)
    requires
        p > 0,
        w == (x * x - 3) % p as int,
    ensures
        curve_rhs(p, b, x) < p,
        (w * x + b) % p == curve_rhs(p, b, x) % p,
{
    let m = p as int;
    let full = x * x * x - 3 * x + b;
    lemma_mod_bound(full, m);
    lemma_mod_twice(full, m);
    lemma_mod_twice(x * x - 3, m);
    modular::lemma_product_congruent(w as int, x * x - 3, x as int, x as int, m);
    modular::lemma_sum_congruent((w * x) as int, (x * x - 3) * x, b as int, b as int, m);
    assert((x * x - 3) * x == x * x * x - 3 * x) by (nonlinear_arith);
}

/// The other root has the same square and, the modulus being odd, the other parity.
proof fn lemma_negated_root(p: nat, y: nat)
    requires
        p % 2 == 1,
        0 < y < p,
    ensures
        ((p - y) * (p - y)) % p as int == (y * y) % p,
        (p - y) % 2 != y % 2,
{
    let m = p as int;
    assert((p - y) * (p - y) == y * y + (p - 2 * y) * m) by (nonlinear_arith)
        requires
            m == p,
    ;
    modular::lemma_differ_by_multiple((p - y) * (p - y), (y * y) as int, p - 2 * y, m);
}

/// `odd` asks for an odd `y`, and its absence for an even one.
pub proof fn law_parity(y: nat, odd: bool)
    ensures
        has_parity(y, odd) <==> odd == (y % 2 == 1),
{
}

/// What a point is: canonical coordinates that satisfy `y^2 = x^3 - 3x + b` modulo `p`.
pub proof fn law_point(p: nat, b: nat, x: nat, y: nat)
    requires
        p > 0,
    ensures
        curve_rhs(p, b, x) == (x * x * x - 3 * x + b) % p as int,
        is_point(p, b, x, y) <==> x < p && y < p && (y * y) % p == (x * x * x - 3 * x + b) % p as int,
{
    lemma_mod_bound(x * x * x - 3 * x + b, p as int);
}

/// Two decompressions with the same `x` over a prime: both parities are found or neither is, unless the
/// root is zero, and the two results add up to the modulus.
pub proof fn law_both_parities(p: nat, b: nat, x: nat, n: nat)
    requires
        prime::is_prime(p),
        p % 4 == 3,
        p < digits::radix(n),
    ensures
        decompressed(p, b, x, true, n) is Some ==> decompressed(p, b, x, false, n) is Some
            && decompressed(p, b, x, true, n)->0 + decompressed(p, b, x, false, n)->0 == p,
        decompressed(p, b, x, false, n) is Some ==> (decompressed(p, b, x, true, n) is Some <==> decompressed(
            p,
            b,
            x,
            false,
            n,
        )->0 != 0),
{
    let u = decompressed(p, b, x, true, n);
    let v = decompressed(p, b, x, false, n);
    if u is Some {
        law_decompressed_on_curve(p, b, x, true, n);
        lemma_negated_root(p, u->0);
        law_point_recovered(p, b, x, (p - u->0) as nat, false, n);
    }
    if v is Some && v->0 != 0 {
        law_decompressed_on_curve(p, b, x, false, n);
        lemma_negated_root(p, v->0);
        law_point_recovered(p, b, x, (p - v->0) as nat, true, n);
    }
}

/// The coefficient `b` counts modulo `p` only.
pub proof fn law_coefficient_reduces(p: nat, b: nat, x: nat)
    requires
        p > 0,
    ensures
        curve_rhs(p, b % p, x) == curve_rhs(p, b, x),
{
    let m = p as int;
    let rest = x * x * x - 3 * x;
    lemma_mod_twice(b as int, m);
    modular::lemma_sum_congruent(rest, rest, (b % p) as int, b as int, m);
}

/// Over an odd prime, at most one point has a given `x` and a given parity of `y`.
pub proof fn law_parity_picks_one(p: nat, b: nat, x: nat, y: nat, z: nat)
    requires
        prime::is_prime(p),
        p % 2 == 1,
        is_point(p, b, x, y),
        is_point(p, b, x, z),
        y % 2 == z % 2,
    ensures
        y == z,
{
    prime::law_two_roots(p, y, z);
}

/// Points come in pairs: with `(x, y)`, also `(x, p - y)` is a point, of the other parity, unless `y`
/// is zero.
pub proof fn law_opposite_point(p: nat, b: nat, x: nat, y: nat)
    requires
        p % 2 == 1,
        is_point(p, b, x, y),
        y != 0,
    ensures
        is_point(p, b, x, (p - y) as nat),
        (p - y) % 2 != y % 2,
{
    lemma_negated_root(p, y);
}

/// Where zero is a root over a prime, no odd root exists.
pub proof fn law_zero_root_is_alone(p: nat, b: nat, x: nat, y: nat)
    requires
        prime::is_prime(p),
        is_point(p, b, x, 0),
        is_point(p, b, x, y),
    ensures
        y == 0,
{
    prime::law_two_roots(p, y, 0);
}

/// Decompression undoes compression: over a prime, a point is recovered from its `x` and the parity of
/// its `y`.
pub proof fn law_point_recovered(p: nat, b: nat, x: nat, y: nat, odd: bool, n: nat)
    requires
        prime::is_prime(p),
        p % 4 == 3,
        p < digits::radix(n),
        x < p,
        y < p,
        (y % 2 == 1) == odd,
        (y * y) % p == (x * x * x - 3 * x + b) % p as int,
    ensures
        decompressed(p, b, x, odd, n) == Some(y),
{
    let z = curve_rhs(p, b, x);
    let c = root_candidate(p, b, x, n);
    digits::lemma_radix(0);
    if p + 1 == digits::radix(n) {
        prime::lemma_all_ones_composite(n);
    }
    lemma_small_mod(p + 1, digits::radix(n));
    let t = modular::power(z, (p + 1) / 4);
    lemma_mod_bound(x * x * x - 3 * x + b, p as int);
    lemma_small_mod(z, p);
    prime::law_square_root(p, z, y);
    lemma_mod_twice(t as int, p as int);
    lemma_mod_bound(t as int, p as int);
    modular::lemma_product_congruent(c as int, t as int, c as int, t as int, p as int);
    prime::law_two_roots(p, y, c);
}

/// Over a prime, decompression fails exactly if no point has this `x` and this parity of `y`.
pub proof fn law_refused_without_point(p: nat, b: nat, x: nat, odd: bool, n: nat)
    requires
        prime::is_prime(p),
        p % 4 == 3,
        p < digits::radix(n),
    ensures
        decompressed(p, b, x, odd, n) is None <==> !exists|y: nat| #[trigger]
            is_point(p, b, x, y) && has_parity(y, odd),
{
    lemma_decompressed(p, b, x, odd, n);
}

} // verus!
