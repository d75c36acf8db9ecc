//! Montgomery arithmetic modulo an odd number.
use crate::digits;
use crate::limbs;
use crate::limbs::Fe;
use crate::modular;
use vstd::arithmetic::div_mod::*;
use vstd::arithmetic::mul::*;
use vstd::arithmetic::power::*;
use vstd::arithmetic::power2::*;
use vstd::prelude::*;

verus! {

/// Montgomery arithmetic modulo an odd prime, with `R = 2^(32L)`.
pub struct Field<const L: usize> {
    pub p: Fe<L>,
    /// `-p^-1 mod 2^32`.
    pub m0: u32,
    /// `R^2 mod p`.
    pub r2: Fe<L>,
}

/// The inverse of `R = 2^(32n)` modulo `p`.
pub open spec fn radix_inverse(p: nat, n: nat) -> nat {
    modular::inverse_pow2(32 * n, p)
}

/// `a * R mod p`: the Montgomery form of `a`.
pub open spec fn to_montgomery(a: nat, p: nat, n: nat) -> nat {
    (a * digits::radix(n)) % p
}

/// `a / R mod p`: the number whose Montgomery form is `a`.
pub open spec fn from_montgomery(a: nat, p: nat, n: nat) -> nat {
    (a * radix_inverse(p, n)) % p
}

/// `q` is `(t + m * p) / r`, the division being exact.
pub open spec fn exact_quotient(t: nat, p: nat, r: nat, m: nat, q: nat) -> bool {
    m < r && q * r == t + m * p
}

/// `out` is what Montgomery reduction makes of `t`: the multiple of `p` below `r * p` that makes `t`
/// divisible by `r` is added, the sum is divided by `r`, and `p` is taken off the quotient once if it
/// fits. For odd `p` there is one such number (`law_reduction_is_unique`).
pub open spec fn montgomery_reduced(t: nat, p: nat, r: nat, out: nat) -> bool {
    exists|m: nat, q: nat| #[trigger]
        exact_quotient(t, p, r, m, q) && out == if q < p {
            q as int
        } else {
            q - p
        }
}

impl<const L: usize> Field<L> {
    /// The modulus.
    pub open spec fn modulus(&self) -> nat {
        digits::value(self.p@)
    }

    /// `R`.
    pub open spec fn radix() -> nat {
        digits::radix(L as nat)
    }

    /// `a` is in `[0, p)`.
    pub open spec fn canonical(&self, a: Fe<L>) -> bool {
        digits::value(a@) < self.modulus()
    }

    /// The modulus is odd and above 1, and the constants are those that belong to it.
    pub open spec fn wf(&self) -> bool {
        &&& L > 0
        &&& 64 * L <= usize::MAX
        &&& self.modulus() > 1
        &&& self.modulus() % 2 == 1
        &&& (self.m0 * self.p@[0]) % 0x1_0000_0000 == 0xffff_ffff
        &&& digits::value(self.r2@) == (Self::radix() * Self::radix()) % self.modulus()
    }

    /// The field of the odd modulus `p`.
    pub fn new(p: Fe<L>) -> (f: Self)
        requires
            64 * L <= usize::MAX,
            digits::value(p@) > 1,
            digits::value(p@) % 2 == 1,
        ensures
            f.wf(),
            f.p == p,
            (f.m0 * p@[0]) % 0x1_0000_0000 == 0xffff_ffff,
            digits::value(f.r2@) == pow2((64 * L) as nat) % digits::value(p@),
    {
        proof {
            digits::lemma_lowest_limb(p@, L as nat);
        }
        let p0 = p[0];
        // Newton iteration: each step doubles the number of correct low bits.
        let mut inv: u32 = 1;
        let mut step: usize = 0;
        let ghost mut k: nat = newton_precision(0);
        proof {
            lemma2_to64();
        }
        while step < 5
            invariant
                step <= 5,
                k == newton_precision(step as nat),
                (p0 * inv) % k as int == 1,
            decreases 5 - step,
        {
            let next = inv.wrapping_mul(2u32.wrapping_sub(p0.wrapping_mul(inv)));
            proof {
                lemma_newton_precision(step as nat);
                lemma_newton_wraps(p0, inv, k as int);
                k = k * k;
            }
            inv = next;
            step = step + 1;
        }
        let m0 = 0u32.wrapping_sub(inv);
        proof {
            lemma2_to64();
            lemma_negated(p0, inv, m0);
        }
        let mut f = Self { p, m0, r2: limbs::small(1) };
        let mut count: usize = 0;
        proof {
            lemma2_to64();
            lemma_small_mod(1, digits::value(p@));
        }
        while count < 64 * L
            invariant
                64 * L <= usize::MAX,
                count <= 64 * L,
                f.p == p,
                f.m0 == m0,
                f.modulus() > 1,
                digits::value(f.r2@) == pow2(count as nat) % f.modulus(),
            decreases 64 * L - count,
        {
            let doubled = f.add(&f.r2, &f.r2);
            proof {
                let x = pow2(count as nat) as int;
                lemma_add_mod_noop(x, x, f.modulus() as int);
                lemma_pow2_unfold((count + 1) as nat);
            }
            f.r2 = doubled;
            count = count + 1;
        }
        proof {
            lemma_pow2_adds(32 * L as nat, 32 * L as nat);
        }
        f
    }

    /// `a + b mod p`.
    pub fn add(&self, a: &Fe<L>, b: &Fe<L>) -> (out: Fe<L>)
        ensures
            digits::value(out@) == if digits::value(a@) + digits::value(b@) < self.modulus() {
                (digits::value(a@) + digits::value(b@)) as int
            } else {
                (digits::value(a@) + digits::value(b@) - self.modulus()) % Self::radix() as int
            },
            self.canonical(*a) && self.canonical(*b) ==> self.canonical(out) && digits::value(out@) == (
            digits::value(a@) + digits::value(b@)) % self.modulus(),
            digits::value(a@) < digits::value(self.p@) && digits::value(b@) < digits::value(self.p@)
                ==> digits::value(out@) == (digits::value(a@) + digits::value(b@)) % digits::value(self.p@),
    {
        let (s, carry) = limbs::add(a, b);
        proof {
            digits::lemma_prefix_bound(a@, L as nat);
            digits::lemma_prefix_bound(b@, L as nat);
            digits::lemma_prefix_bound(s@, L as nat);
            digits::lemma_prefix_bound(self.p@, L as nat);
        }
        if carry || !limbs::lt(&s, &self.p) {
            let res = limbs::sub(&s, &self.p);
            proof {
                digits::lemma_prefix_bound(res.0@, L as nat);
                let full = digits::value(a@) + digits::value(b@) - self.modulus();
                let out = digits::value(res.0@) as int;
                if carry && !res.1 {
                    lemma_wrapped(full, out, 1, Self::radix() as int);
                } else {
                    lemma_wrapped(full, out, 0, Self::radix() as int);
                }
                if self.canonical(*a) && self.canonical(*b) {
                    lemma_wrapped(full + self.modulus(), full, 1, self.modulus() as int);
                    lemma_small_mod(full as nat, Self::radix());
                }
            }
            res.0
        } else {
            proof {
                lemma_small_mod(digits::value(s@), self.modulus());
            }
            s
        }
    }

    /// `a - b mod p`.
    pub fn sub(&self, a: &Fe<L>, b: &Fe<L>) -> (out: Fe<L>)
        ensures
            digits::value(out@) == if digits::value(a@) >= digits::value(b@) {
                digits::value(a@) - digits::value(b@)
            } else {
                (digits::value(a@) - digits::value(b@) + self.modulus()) % Self::radix() as int
            },
            self.canonical(*a) && self.canonical(*b) ==> self.canonical(out) && digits::value(out@) == (
            digits::value(a@) - digits::value(b@)) % self.modulus() as int,
            digits::value(a@) < digits::value(self.p@) && digits::value(b@) < digits::value(self.p@)
                ==> digits::value(out@) == (digits::value(a@) - digits::value(b@)) % digits::value(self.p@) as int,
    {
        let (d, borrow) = limbs::sub(a, b);
        proof {
            digits::lemma_prefix_bound(a@, L as nat);
            digits::lemma_prefix_bound(b@, L as nat);
            digits::lemma_prefix_bound(d@, L as nat);
            digits::lemma_prefix_bound(self.p@, L as nat);
        }
        if borrow {
            let res = limbs::add(&d, &self.p);
            proof {
                digits::lemma_prefix_bound(res.0@, L as nat);
                let full = digits::value(a@) - digits::value(b@) + self.modulus();
                let out = digits::value(res.0@) as int;
                if res.1 {
                    lemma_wrapped(full, out, 0, Self::radix() as int);
                } else {
                    lemma_wrapped(full, out, -1, Self::radix() as int);
                }
                if self.canonical(*a) && self.canonical(*b) {
                    lemma_wrapped(full - self.modulus(), full, -1, self.modulus() as int);
                    lemma_small_mod(full as nat, Self::radix());
                }
            }
            res.0
        } else {
            proof {
                if self.canonical(*a) {
                    lemma_small_mod(digits::value(d@), self.modulus());
                }
            }
            d
        }
    }

    /// `a * b / R mod p` (CIOS).
    pub fn mul(&self, a: &Fe<L>, b: &Fe<L>) -> (out: Fe<L>)
        requires
            self.wf(),
        ensures
            montgomery_reduced(
                digits::value(a@) * digits::value(b@),
                self.modulus(),
                Self::radix(),
                digits::value(out@),
            ),
            digits::value(out@) % self.modulus() == from_montgomery(
                digits::value(a@) * digits::value(b@),
                self.modulus(),
                L as nat,
            ),
            self.canonical(*a) || self.canonical(*b) ==> self.canonical(out) && digits::value(out@)
                == from_montgomery(digits::value(a@) * digits::value(b@), self.modulus(), L as nat),
            (digits::value(out@) * pow2((32 * L) as nat)) % digits::value(self.p@) == (digits::value(a@)
                * digits::value(b@)) % digits::value(self.p@),
            digits::value(a@) < digits::value(self.p@) || digits::value(b@) < digits::value(self.p@)
                ==> digits::value(out@) < digits::value(self.p@),
    {
        let p = &self.p;
        let ghost r = Self::radix();
        let ghost vp = self.modulus();
        let ghost vb = digits::value(b@);
        let mut t = [0u32; L];
        let mut hi: u32 = 0;
        let ghost mut quotient: nat = 0;
        let mut i: usize = 0;
        proof {
            digits::lemma_radix(0);
            digits::lemma_prefix_zero(t@, L as nat);
            lemma_mul_basics(r as int);
            lemma_mul_basics(vp as int);
            lemma_mul_basics(vb as int);
        }
        while i < L
            invariant
                self.wf(),
                p == self.p,
                i <= L,
                r == Self::radix(),
                vp == self.modulus(),
                vb == digits::value(b@),
                quotient < digits::radix(i as nat),
                digits::value(t@) + hi * r < vb + vp,
                (digits::value(t@) + hi * r) * digits::radix(i as nat) == digits::prefix(a@, i as nat) * vb
                    + quotient * vp,
            decreases L - i,
        {
            let ai = a[i];
            let ghost t0 = t@;
            let ghost hi0 = hi;
            let mut c: u64 = 0;
            let mut j: usize = 0;
            proof {
                lemma_mul_basics(ai as int);
                lemma_mul_basics(digits::radix(0) as int);
            }
            while j < L
                invariant
                    j <= L,
                    c < 0x1_0000_0000,
                    t0.len() == L,
                    digits::prefix(t@, j as nat) + c * digits::radix(j as nat) == digits::prefix(t0, j as nat)
                        + ai * digits::prefix(b@, j as nat),
                    forall|k: int| j <= k < L ==> t[k] == t0[k],
                decreases L - j,
            {
                let tj = t[j];
                let bj = b[j];
                proof {
                    lemma_word_product(ai, bj);
                }
                let s: u64 = u64::from(tj) + u64::from(ai) * u64::from(bj) + c;
                let ghost before = t@;
                let ghost c0 = c;
                t[j] = s as u32;
                c = s >> 32;
                proof {
                    lemma_split(s);
                    digits::lemma_prefix_agrees(before, t@, j as nat);
                    digits::lemma_carry(s as nat, (s as u32) as nat, c as nat, j as nat);
                    lemma_row_term(tj as nat, ai as nat, bj as nat, c0 as nat, digits::prefix(b@, j as nat),
                        digits::radix(j as nat));
                }
                j = j + 1;
            }
            let s: u64 = u64::from(hi) + c;
            proof {
                lemma_split(s);
            }
            let ghost c1 = c;
            hi = s as u32;
            let top = (s >> 32) as u32;
            let ghost t1 = t@;
            let ghost hi1 = hi;

            let m = t[0].wrapping_mul(self.m0);
            proof {
                lemma_word_product(m, p[0]);
            }
            let s: u64 = u64::from(t[0]) + u64::from(m) * u64::from(p[0]);
            let mut c: u64 = s >> 32;
            let mut j: usize = 1;
            proof {
                lemma_split(s);
                lemma_low_word_vanishes(t[0], self.m0, p[0]);
                digits::lemma_radix(0);
                reveal_with_fuel(digits::prefix, 2);
                lemma_mul_basics(t[0] as int);
                lemma_mul_basics(p[0] as int);
            }
            while j < L
                invariant
                    1 <= j <= L,
                    c < 0x1_0000_0000,
                    t1.len() == L,
                    0x1_0000_0000 * digits::prefix(t@, (j - 1) as nat) + c * digits::radix(j as nat)
                        == digits::prefix(t1, j as nat) + m * digits::prefix(p@, j as nat),
                    forall|k: int| j <= k < L ==> t[k] == t1[k],
                decreases L - j,
            {
                let tj = t[j];
                let pj = p[j];
                proof {
                    lemma_word_product(m, pj);
                }
                let s: u64 = u64::from(tj) + u64::from(m) * u64::from(pj) + c;
                let ghost before = t@;
                let ghost c0 = c;
                t[j - 1] = s as u32;
                c = s >> 32;
                proof {
                    lemma_split(s);
                    digits::lemma_prefix_agrees(before, t@, (j - 1) as nat);
                    digits::lemma_carry(s as nat, (s as u32) as nat, c as nat, j as nat);
                    lemma_row_term(tj as nat, m as nat, pj as nat, c0 as nat, digits::prefix(p@, j as nat),
                        digits::radix(j as nat));
                    digits::lemma_radix((j - 1) as nat);
                    lemma_shift_term((s as u32) as nat, digits::prefix(t@, (j - 1) as nat),
                        digits::radix((j - 1) as nat));
                }
                j = j + 1;
            }
            let s: u64 = u64::from(hi) + c;
            proof {
                lemma_split(s);
            }
            let ghost before = t@;
            t[L - 1] = s as u32;
            hi = top + (s >> 32) as u32;
            proof {
                digits::lemma_prefix_agrees(before, t@, (L - 1) as nat);
                digits::lemma_radix((L - 1) as nat);
                lemma_row(
                    digits::value(t0),
                    hi0 as nat,
                    digits::value(t1),
                    hi1 as nat,
                    top as nat,
                    c1 as nat,
                    digits::prefix(t@, (L - 1) as nat),
                    t@[L - 1] as nat,
                    c as nat,
                    (s >> 32) as nat,
                    ai as nat,
                    m as nat,
                    vb,
                    vp,
                    digits::radix((L - 1) as nat),
                );
                digits::lemma_radix(i as nat);
                lemma_accumulate(
                    digits::value(t0) + hi0 as nat * r,
                    digits::value(t@) + hi as nat * r,
                    digits::prefix(a@, i as nat),
                    quotient,
                    ai as nat,
                    m as nat,
                    vb,
                    vp,
                    digits::radix(i as nat),
                );
                quotient = quotient + m as nat * digits::radix(i as nat);
            }
            i = i + 1;
        }
        let ghost total = digits::value(t@) + hi * r;
        proof {
            digits::lemma_prefix_bound(t@, L as nat);
            digits::lemma_prefix_bound(p@, L as nat);
            digits::lemma_prefix_bound(b@, L as nat);
            if hi >= 2 {
                assert(hi * r >= 2 * r) by (nonlinear_arith)
                    requires
                        hi >= 2,
                ;
            }
            lemma_mul_basics(r as int);
        }
        let out = if hi != 0 || !limbs::lt(&t, p) {
            let res = limbs::sub(&t, p);
            proof {
                digits::lemma_prefix_bound(res.0@, L as nat);
            }
            res.0
        } else {
            t
        };
        proof {
            let va = digits::value(a@);
            digits::lemma_prefix_bound(a@, L as nat);
            assert(exact_quotient(va * vb, vp, r, quotient, total as nat));
            lemma_montgomery_reduced(va * vb, vp, L as nat, digits::value(out@));
            law_from_montgomery(va * vb, vp, L as nat);
            lemma_mul_mod_noop_left(digits::value(out@) as int, r as int, vp as int);
            if va < vp || vb < vp {
                assert(va * vb < r * vp) by (nonlinear_arith)
                    requires
                        va < r,
                        vb < r,
                        va < vp || vb < vp,
                        0 <= va,
                        0 <= vb,
                ;
            }
        }
        out
    }

    /// The Montgomery form of `a`.
    pub fn enter(&self, a: &Fe<L>) -> (out: Fe<L>)
        requires
            self.wf(),
        ensures
            self.canonical(out),
            digits::value(out@) == to_montgomery(digits::value(a@), self.modulus(), L as nat),
            digits::value(out@) == (digits::value(a@) * pow2((32 * L) as nat)) % digits::value(self.p@),
    {
        proof {
            lemma_mod_bound((Self::radix() * Self::radix()) as int, self.modulus() as int);
            lemma_enter(digits::value(a@), digits::value(self.r2@), self.modulus(), L as nat);
        }
        self.mul(a, &self.r2)
    }

    /// The number whose Montgomery form is `a`.
    pub fn leave(&self, a: &Fe<L>) -> (out: Fe<L>)
        requires
            self.wf(),
        ensures
            self.canonical(out),
            digits::value(out@) == from_montgomery(digits::value(a@), self.modulus(), L as nat),
            digits::value(out@) < digits::value(self.p@),
            (digits::value(out@) * pow2((32 * L) as nat)) % digits::value(self.p@) == digits::value(a@)
                % digits::value(self.p@),
    {
        proof {
            lemma_mul_basics(digits::value(a@) as int);
        }
        self.mul(a, &limbs::small(1))
    }

    /// `a^e`, in the Montgomery domain.
    pub fn pow(&self, a: &Fe<L>, e: &Fe<L>) -> (out: Fe<L>)
        requires
            self.wf(),
        ensures
            self.canonical(out),
            digits::value(out@) == to_montgomery(
                modular::power(from_montgomery(digits::value(a@), self.modulus(), L as nat), digits::value(e@)),
                self.modulus(),
                L as nat,
            ),
            forall|v: nat| #![trigger pow(v as int, digits::value(e@))]
                (v * pow2((32 * L) as nat)) % digits::value(self.p@) == digits::value(a@) % digits::value(self.p@)
                    ==> digits::value(out@) == (pow(v as int, digits::value(e@)) * pow2((32 * L) as nat))
                    % digits::value(self.p@) as int,
    {
        let ghost p = self.modulus();
        let ghost base = from_montgomery(digits::value(a@), p, L as nat);
        let ghost ve = digits::value(e@);
        let mut r = self.enter(&limbs::small(1));
        let mut i: usize = 32 * L;
        proof {
            digits::lemma_prefix_bound(e@, L as nat);
            lemma_basic_div(ve as int, digits::radix(L as nat) as int);
            modular::lemma_power(base, 0);
        }
        while i > 0
            invariant
                self.wf(),
                i <= 32 * L,
                p == self.modulus(),
                ve == digits::value(e@),
                base == from_montgomery(digits::value(a@), p, L as nat),
                self.canonical(r),
                digits::value(r@) == to_montgomery(modular::power(base, ve / pow2(i as nat)), p, L as nat),
            decreases i,
        {
            i = i - 1;
            let ghost high = ve / pow2((i + 1) as nat);
            proof {
                let x = modular::power(base, high);
                law_product_of_forms(x, x, p, L as nat);
                modular::lemma_power(base, high);
                digits::lemma_bit(e@, i as nat);
            }
            r = self.mul(&r, &r);
            if (e[i / 32] >> ((i % 32) as u32)) & 1 == 1 {
                proof {
                    let x = modular::power(base, 2 * high);
                    lemma_multiply_in(x, digits::value(r@), digits::value(a@), p, L as nat);
                    modular::lemma_power(base, 2 * high);
                }
                r = self.mul(&r, a);
            }
        }
        proof {
            lemma2_to64();
            lemma_div_basics(ve as int);
            assert forall|v: nat| #![trigger pow(v as int, ve)]
                (v * pow2((32 * L) as nat)) % p == digits::value(a@) % p implies digits::value(r@) == (pow(
                v as int,
                ve,
            ) * pow2((32 * L) as nat)) % p as int by {
                lemma_power_of_any(v, digits::value(a@), ve, p, L as nat);
            }
        }
        r
    }
}

/// What Montgomery reduction computes modulo `p`, and when its result is below `p`.
pub(crate) proof fn lemma_montgomery_reduced(t: nat, p: nat, n: nat, out: nat)
    requires
        p > 1,
        p % 2 == 1,
        montgomery_reduced(t, p, digits::radix(n), out),
    ensures
        out % p == from_montgomery(t, p, n),
        t < digits::radix(n) * p ==> out < p && out == from_montgomery(t, p, n),
{
    let r = digits::radix(n);
    let inverse = radix_inverse(p, n);
    let (m, q) = choose|m: nat, q: nat| #[trigger]
        exact_quotient(t, p, r, m, q) && out == if q < p {
            q as int
        } else {
            q - p
        };
    modular::law_inverse_pow2(32 * n, p);
    modular::lemma_differ_by_multiple((q * r) as int, t as int, m as int, p as int);
    modular::lemma_times_inverse(q as int, r as int, inverse as int, p as int);
    modular::lemma_product_congruent((q * r) as int, t as int, inverse as int, inverse as int, p as int);
    if q >= p {
        modular::lemma_differ_by_multiple(out as int, q as int, -1, p as int);
    }
    if t < r * p {
        digits::lemma_radix(n);
        assert(q < 2 * p) by (nonlinear_arith)
            requires
                q * r == t + m * p,
                t < r * p,
                m < r,
                p > 0,
        ;
        lemma_small_mod(out, p);
    }
}

/// An odd factor does not help a number to be divisible by a power of two.
proof fn lemma_odd_factor(d: int, p: nat, k: nat)
    requires
        p % 2 == 1,
        (d * p) % pow2(k) as int == 0,
    ensures
        d % pow2(k) as int == 0,
    decreases k,
{
    lemma2_to64();
    if k > 0 {
        let w = pow2((k - 1) as nat) as int;
        lemma_pow2_pos((k - 1) as nat);
        lemma_pow2_unfold(k);
        lemma_fundamental_div_mod(d * p, 2 * w);
        let j = (d * p) / (2 * w);
        let half = p as int / 2;
        assert(2 * (w * j - d * half) == d) by (nonlinear_arith)
            requires
                d * p == (2 * w) * j,
                p == 2 * half + 1,
        ;
        let e = w * j - d * half;
        assert(e * p == j * w) by (nonlinear_arith)
            requires
                d * p == (2 * w) * j,
                d == 2 * e,
        ;
        lemma_mod_multiples_basic(j, w);
        lemma_odd_factor(e, p, (k - 1) as nat);
        lemma_fundamental_div_mod(e, w);
        let i = e / w;
        assert(d == i * (2 * w)) by (nonlinear_arith)
            requires
                d == 2 * e,
                e == w * i,
        ;
        lemma_mod_multiples_basic(i, 2 * w);
    }
}

/// Montgomery reduction modulo an odd number has one result.
pub proof fn law_reduction_is_unique(t: nat, p: nat, n: nat, x: nat, y: nat)
    requires
        p % 2 == 1,
        montgomery_reduced(t, p, digits::radix(n), x),
        montgomery_reduced(t, p, digits::radix(n), y),
    ensures
        x == y,
{
    let r = digits::radix(n);
    let (m, q) = choose|m: nat, q: nat| #[trigger]
        exact_quotient(t, p, r, m, q) && x == if q < p {
            q as int
        } else {
            q - p
        };
    let (k, u) = choose|k: nat, u: nat| #[trigger]
        exact_quotient(t, p, r, k, u) && y == if u < p {
            u as int
        } else {
            u - p
        };
    digits::lemma_radix(n);
    assert((m - k) * p == (q - u) * r) by (nonlinear_arith)
        requires
            q * r == t + m * p,
            u * r == t + k * p,
    ;
    lemma_mod_multiples_basic(q - u, r as int);
    lemma_odd_factor(m - k, p, 32 * n);
    lemma_fundamental_div_mod(m - k, r as int);
    let i = (m - k) / r as int;
    assert(i == 0) by (nonlinear_arith)
        requires
            -r < r * i < r,
            r > 0,
    ;
    lemma_mul_basics(r as int);
    lemma_mul_equality_converse(r as int, q as int, u as int);
}

/// Multiplying by `R^2` and dividing by `R`.
proof fn lemma_enter(a: nat, r2: nat, p: nat, n: nat)
    requires
        p > 1,
        p % 2 == 1,
        r2 == (digits::radix(n) * digits::radix(n)) % p,
    ensures
        from_montgomery(a * r2, p, n) == to_montgomery(a, p, n),
{
    let r = digits::radix(n) as int;
    let inverse = radix_inverse(p, n) as int;
    let m = p as int;
    let x = a as int;
    modular::law_inverse_pow2(32 * n, p);
    lemma_mod_twice(r * r, m);
    modular::lemma_product_congruent(x, x, r2 as int, r * r, m);
    modular::lemma_product_congruent(x * r2, x * (r * r), inverse, inverse, m);
    assert(x * (r * r) * inverse == (x * r) * r * inverse) by (nonlinear_arith);
    modular::lemma_times_inverse(x * r, r, inverse, m);
}

/// Multiplying the Montgomery form of `x` by `a`.
proof fn lemma_multiply_in(x: nat, r: nat, a: nat, p: nat, n: nat)
    requires
        p > 1,
        p % 2 == 1,
        r == to_montgomery(x, p, n),
    ensures
        from_montgomery(r * a, p, n) == to_montgomery(x * from_montgomery(a, p, n), p, n),
{
    let w = digits::radix(n) as int;
    let inverse = radix_inverse(p, n) as int;
    let m = p as int;
    let y = (x * w) as int;
    lemma_mod_twice(y, m);
    modular::lemma_product_congruent(r as int, y, a as int, a as int, m);
    modular::lemma_product_congruent((r * a) as int, y * a, inverse, inverse, m);
    lemma_mod_twice(a * inverse, m);
    modular::lemma_product_congruent(x as int, x as int, from_montgomery(a, p, n) as int, a * inverse, m);
    modular::lemma_product_congruent((x * from_montgomery(a, p, n)) as int, x * (a * inverse), w, w, m);
    assert((x * w) * a * inverse == x * (a * inverse) * w) by (nonlinear_arith);
}

/// The Montgomery product of the forms of `x` and `y` is the form of `x * y`.
pub proof fn law_product_of_forms(x: nat, y: nat, p: nat, n: nat)
    requires
        p > 1,
        p % 2 == 1,
    ensures
        from_montgomery(to_montgomery(x, p, n) * to_montgomery(y, p, n), p, n) == to_montgomery(x * y, p, n),
{
    law_leave_enter(y, p, n);
    lemma_multiply_in(x, to_montgomery(x, p, n), to_montgomery(y, p, n), p, n);
    let w = digits::radix(n) as int;
    lemma_mod_twice(y as int, p as int);
    modular::lemma_product_congruent(x as int, x as int, (y % p) as int, y as int, p as int);
    modular::lemma_product_congruent((x * (y % p)) as int, (x * y) as int, w, w, p as int);
}

/// Congruent numbers have the same Montgomery form.
pub(crate) proof fn lemma_form_of_congruent(x: nat, y: nat, p: nat, n: nat)
    requires
        p > 0,
        x % p == y % p,
    ensures
        to_montgomery(x, p, n) == to_montgomery(y, p, n),
{
    let w = digits::radix(n) as int;
    modular::lemma_product_congruent(x as int, y as int, w, w, p as int);
}

/// The sum of the forms of `x` and `y` is the form of `x + y`.
pub proof fn law_sum_of_forms(x: nat, y: nat, p: nat, n: nat)
    requires
        p > 0,
    ensures
        (to_montgomery(x, p, n) + to_montgomery(y, p, n)) % p == to_montgomery(x + y, p, n),
{
    let w = digits::radix(n) as int;
    lemma_add_mod_noop(x * w, y * w, p as int);
    lemma_mul_is_distributive_add_other_way(w, x as int, y as int);
}

/// The difference of the forms of `x` and `y` is the form of `x - y`.
pub proof fn law_difference_of_forms(x: nat, y: nat, p: nat, n: nat)
    requires
        p > 0,
    ensures
        (to_montgomery(x, p, n) - to_montgomery(y, p, n)) % p as int == to_montgomery(
            ((x - y) % p as int) as nat,
            p,
            n,
        ),
{
    let w = digits::radix(n) as int;
    lemma_sub_mod_noop(x * w, y * w, p as int);
    lemma_mul_is_distributive_sub_other_way(w, x as int, y as int);
    lemma_mod_bound(x - y, p as int);
    lemma_mul_mod_noop_left(x - y, w, p as int);
}

/// Entering the Montgomery domain undoes leaving it.
pub proof fn law_enter_leave(x: nat, p: nat, n: nat)
    requires
        p > 1,
        p % 2 == 1,
    ensures
        to_montgomery(from_montgomery(x, p, n), p, n) == x % p,
{
    let w = digits::radix(n) as int;
    let inverse = radix_inverse(p, n) as int;
    let m = p as int;
    modular::law_inverse_pow2(32 * n, p);
    lemma_mul_mod_noop_left(x * inverse, w, m);
    lemma_mul_is_commutative(w, inverse);
    modular::lemma_times_inverse(x as int, inverse, w, m);
}

/// The Montgomery power of the form of `x` is the form of `x^e`.
pub proof fn law_power_of_form(x: nat, e: nat, p: nat, n: nat)
    requires
        p > 1,
        p % 2 == 1,
    ensures
        to_montgomery(modular::power(from_montgomery(to_montgomery(x, p, n), p, n), e), p, n) == to_montgomery(
            modular::power(x, e),
            p,
            n,
        ),
{
    law_leave_enter(x, p, n);
    lemma_mod_twice(x as int, p as int);
    modular::lemma_power_nonnegative(x, e);
    modular::lemma_power_nonnegative(x % p, e);
    modular::lemma_power_congruent((x % p) as int, x as int, e, p as int);
    lemma_form_of_congruent(modular::power(x % p, e), modular::power(x, e), p, n);
}

/// The Montgomery power of `a` is the form of `v^e`, for any `v` whose form is congruent to `a`.
proof fn lemma_power_of_any(v: nat, a: nat, e: nat, p: nat, n: nat)
    requires
        p > 1,
        p % 2 == 1,
        (v * pow2(32 * n)) % p == a % p,
    ensures
        to_montgomery(modular::power(from_montgomery(a, p, n), e), p, n) == (pow(v as int, e) * pow2(32 * n))
            % p as int,
{
    let m = p as int;
    let inverse = radix_inverse(p, n) as int;
    lemma_mod_twice(a as int, m);
    lemma_mod_twice((v * pow2(32 * n)) as int, m);
    modular::lemma_product_congruent(a as int, to_montgomery(v, p, n) as int, inverse, inverse, m);
    law_power_of_form(v, e, p, n);
    modular::law_power(v, e);
}

/// The Montgomery form of `a` is `a * R mod p`.
pub proof fn law_to_montgomery(a: nat, p: nat, n: nat)
    ensures
        to_montgomery(a, p, n) == (a * pow2(32 * n)) % p,
{
}

/// The number whose Montgomery form is `a`: multiplied by `R` it is congruent to `a`, and it is below
/// `p`.
pub proof fn law_from_montgomery(a: nat, p: nat, n: nat)
    requires
        p > 1,
        p % 2 == 1,
    ensures
        from_montgomery(a, p, n) < p,
        (from_montgomery(a, p, n) * pow2(32 * n)) % p == a % p,
{
    lemma_mod_bound((a * radix_inverse(p, n)) as int, p as int);
    law_enter_leave(a, p, n);
}

/// What Montgomery reduction is: for some `m` below `r`, which is returned with `q`, `q * r` is
/// `t + m * p`, and the result is `q`, less `p` if `q` is not below `p`.
pub proof fn law_reduction_means(t: nat, p: nat, r: nat, out: nat) -> (res: (nat, nat))
    requires
        montgomery_reduced(t, p, r, out),
    ensures
        res.0 < r,
        res.1 * r == t + res.0 * p,
        out == if res.1 < p { res.1 as int } else { res.1 - p },
{
    choose|m: nat, q: nat| #[trigger]
        exact_quotient(t, p, r, m, q) && out == if q < p {
            q as int
        } else {
            q - p
        }
}

/// Every number that meets the description of `law_reduction_means` is a Montgomery reduction.
pub proof fn law_reduction_suffices(t: nat, p: nat, r: nat, m: nat, q: nat, out: nat)
    requires
        m < r,
        q * r == t + m * p,
        out == if q < p { q as int } else { q - p },
    ensures
        montgomery_reduced(t, p, r, out),
{
    assert(exact_quotient(t, p, r, m, q));
}

/// The terms that the contracts of a field are stated in.
pub proof fn law_field_terms<const L: usize>(f: Field<L>, a: Fe<L>)
    ensures
        f.modulus() == digits::value(f.p@),
        Field::<L>::radix() == pow2((32 * L) as nat),
        f.canonical(a) <==> digits::value(a@) < digits::value(f.p@),
        f.wf() <==> {
            &&& L > 0
            &&& 64 * L <= usize::MAX
            &&& digits::value(f.p@) > 1
            &&& digits::value(f.p@) % 2 == 1
            &&& (f.m0 * f.p@[0]) % 0x1_0000_0000 == 0xffff_ffff
            &&& digits::value(f.r2@) == pow2((64 * L) as nat) % digits::value(f.p@)
        },
{
    lemma_pow2_adds(32 * L as nat, 32 * L as nat);
}

/// Subtraction and addition modulo `p` undo each other.
pub proof fn law_add_sub_inverse(a: nat, b: nat, p: nat)
    requires
        a < p,
        b < p,
    ensures
        ((a + b) % p - b) % p as int == a,
        ((a - b) % p as int + b) % p as int == a,
{
    let m = p as int;
    lemma_small_mod(a, p);
    lemma_sub_mod_noop((a + b) as int, b as int, m);
    lemma_sub_mod_noop(((a + b) % p) as int, b as int, m);
    lemma_mod_twice((a + b) as int, m);
    lemma_add_mod_noop(a - b, b as int, m);
    lemma_add_mod_noop((a - b) % m, b as int, m);
    lemma_mod_twice(a - b, m);
}

/// Leaving the Montgomery domain undoes entering it.
pub proof fn law_leave_enter(x: nat, p: nat, n: nat)
    requires
        p > 1,
        p % 2 == 1,
    ensures
        from_montgomery(to_montgomery(x, p, n), p, n) == x % p,
{
    let w = digits::radix(n) as int;
    let inverse = radix_inverse(p, n) as int;
    let m = p as int;
    modular::law_inverse_pow2(32 * n, p);
    lemma_mod_twice(x * w, m);
    modular::lemma_product_congruent(to_montgomery(x, p, n) as int, x * w, inverse, inverse, m);
    modular::lemma_times_inverse(x as int, w, inverse, m);
}

/// The modulus up to which the inverse is right after `step` Newton steps: `2^(2^step)`.
spec fn newton_precision(step: nat) -> nat {
    pow2(pow2(step))
}

/// A number in `[0, m)` that differs from `full` by a multiple of `m` is `full mod m`.
proof fn lemma_wrapped(full: int, out: int, k: int, m: int)
    requires
        0 <= out < m,
        full == out + k * m,
    ensures
        full % m == out,
{
    modular::lemma_differ_by_multiple(full, out, k, m);
    lemma_small_mod(out as nat, m as nat);
}

/// Each Newton step doubles the number of correct low bits: if `x` is 1 modulo `k`, then
/// `x * (2 - x)` is 1 modulo `k^2`.
pub proof fn law_newton_step(x: int, k: int)
    requires
        k > 1,
        x % k == 1,
    ensures
        (x * (2 - x)) % (k * k) == 1,
{
    lemma_fundamental_div_mod(x, k);
    let j = x / k;
    assert(x * (2 - x) == 1 + (-(j * j)) * (k * k)) by (nonlinear_arith)
        requires
            x == k * j + 1,
    ;
    assert(k * k > 1) by (nonlinear_arith)
        requires
            k > 1,
    ;
    lemma_wrapped(x * (2 - x), 1, -(j * j), k * k);
}

/// The precision grows by squaring, up to that of a word.
proof fn lemma_newton_precision(step: nat)
    requires
        step < 5,
    ensures
        newton_precision(step) > 1,
        newton_precision(step + 1) == newton_precision(step) * newton_precision(step),
        0x1_0000_0000nat % newton_precision(step + 1) == 0,
{
    lemma2_to64();
    lemma_pow2_unfold(step + 1);
    lemma_pow2_adds(pow2(step), pow2(step));
    assert(step == 0 || step == 1 || step == 2 || step == 3 || step == 4);
}

/// A Newton step on words: what overflows is a multiple of `2^32`, and so of `k^2`.
proof fn lemma_newton_wraps(p0: u32, inv: u32, k: int)
    requires
        k > 1,
        0x1_0000_0000int % (k * k) == 0,
        (p0 * inv) % k == 1,
    ensures
        (p0 * inv.wrapping_mul(2u32.wrapping_sub(p0.wrapping_mul(inv)))) % (k * k) == 1,
{
    let b = 0x1_0000_0000int;
    let x = p0 * inv;
    let u = p0.wrapping_mul(inv);
    let v = 2u32.wrapping_sub(u);
    let next = inv.wrapping_mul(v);
    law_newton_step(x, k);
    lemma_fundamental_div_mod(x, b);
    let k1 = x / b;
    let borrowed: int = if u > 2 { 1 } else { 0 };
    assert(v == 2 - x + b * (k1 + borrowed));
    lemma_fundamental_div_mod(inv * v, b);
    let k3 = (inv * v) / b;
    assert(next == inv * v - b * k3);
    let over = x * (k1 + borrowed) - k3 * p0;
    assert(p0 * next == x * v - b * (k3 * p0)) by (nonlinear_arith)
        requires
            next == inv * v - b * k3,
            x == p0 * inv,
    ;
    assert(x * v == x * (2 - x) + b * (x * (k1 + borrowed))) by (nonlinear_arith)
        requires
            v == 2 - x + b * (k1 + borrowed),
    ;
    assert(k * k > 1) by (nonlinear_arith)
        requires
            k > 1,
    ;
    lemma_fundamental_div_mod(b, k * k);
    let c = b / (k * k);
    assert(b * over == (c * over) * (k * k)) by (nonlinear_arith)
        requires
            b == (k * k) * c,
    ;
    assert(b * over == b * (x * (k1 + borrowed)) - b * (k3 * p0)) by (nonlinear_arith)
        requires
            over == x * (k1 + borrowed) - k3 * p0,
    ;
    modular::lemma_differ_by_multiple(p0 * next, x * (2 - x), c * over, k * k);
}

/// Negating the inverse of `p0` modulo `2^32`.
proof fn lemma_negated(p0: u32, inv: u32, m0: u32)
    requires
        (p0 * inv) % 0x1_0000_0000 == 1,
        m0 == 0u32.wrapping_sub(inv),
    ensures
        (m0 * p0) % 0x1_0000_0000 == 0xffff_ffff,
{
    let b = 0x1_0000_0000int;
    lemma_fundamental_div_mod(p0 * inv, b);
    let j = (p0 * inv) / b;
    let carried: int = if inv > 0 { 1 } else { 0 };
    assert(m0 * p0 == (b - 1) + (carried * p0 - j - 1) * b) by (nonlinear_arith)
        requires
            m0 == carried * b - inv,
            p0 * inv == b * j + 1,
    ;
    lemma_wrapped(m0 * p0, b - 1, carried * p0 - j - 1, b);
}

/// The product of two words leaves room for two more words.
proof fn lemma_word_product(x: u32, y: u32)
    ensures
        x * y <= 0xffff_fffe_0000_0001,
{
    assert(x * y <= 0xffff_ffff * 0xffff_ffff) by (nonlinear_arith)
        requires
            x <= 0xffff_ffff,
            y <= 0xffff_ffff,
    ;
}

/// Truncation keeps the low word, shifting the high word.
proof fn lemma_split(s: u64)
    ensures
        s == (s as u32) + 0x1_0000_0000 * (s >> 32),
        s >> 32 < 0x1_0000_0000,
        ((s >> 32) as u32) == s >> 32,
        s <= 0x1_ffff_ffff ==> s >> 32 <= 1,
{
    assert(s == (s as u32) + 0x1_0000_0000u64 * (s >> 32)) by (bit_vector);
    assert(s >> 32 < 0x1_0000_0000u64) by (bit_vector);
    assert(((s >> 32) as u32) == s >> 32) by (bit_vector);
    assert(s <= 0x1_ffff_ffffu64 ==> s >> 32 <= 1) by (bit_vector);
}

/// The contribution of one limb to a row.
proof fn lemma_row_term(t: nat, x: nat, y: nat, c: nat, below: nat, r: nat)
    ensures
        (t + x * y + c) * r == t * r + x * (y * r) + c * r,
        x * (below + y * r) == x * below + x * (y * r),
{
    assert((t + x * y + c) * r == t * r + x * (y * r) + c * r) by (nonlinear_arith);
    assert(x * (below + y * r) == x * below + x * (y * r)) by (nonlinear_arith);
}

/// Moving a limb one position up.
proof fn lemma_shift_term(d: nat, below: nat, r: nat)
    ensures
        0x1_0000_0000 * (below + d * r) == 0x1_0000_0000 * below + d * (0x1_0000_0000 * r),
{
    assert(0x1_0000_0000 * (below + d * r) == 0x1_0000_0000 * below + d * (0x1_0000_0000 * r))
        by (nonlinear_arith);
}

/// Adding the right multiple of `p` clears the lowest word.
proof fn lemma_low_word_vanishes(t: u32, m0: u32, p0: u32)
    requires
        (m0 * p0) % 0x1_0000_0000 == 0xffff_ffff,
    ensures
        (t + t.wrapping_mul(m0) * p0) % 0x1_0000_0000 == 0,
{
    let m = t.wrapping_mul(m0);
    let b = 0x1_0000_0000int;
    let k = (t * m0) / b;
    let k2 = (m0 * p0) / b;
    lemma_fundamental_div_mod(t * m0, b);
    lemma_fundamental_div_mod(m0 * p0, b);
    assert(m == t * m0 - b * k);
    assert(t + m * p0 == (t * (k2 + 1) - k * p0) * b) by (nonlinear_arith)
        requires
            m == t * m0 - b * k,
            m0 * p0 == b * k2 + b - 1,
    ;
    lemma_mod_multiples_basic(t * (k2 + 1) - k * p0, b);
}

/// What one round of the outer loop does, limb sums put together.
proof fn lemma_row(
    t0: nat,
    hi0: nat,
    t1: nat,
    hi1: nat,
    top: nat,
    c1: nat,
    low: nat,
    last: nat,
    c2: nat,
    over: nat,
    x: nat,
    m: nat,
    vb: nat,
    vp: nat,
    w: nat,
)
    requires
        t1 + c1 * (0x1_0000_0000 * w) == t0 + x * vb,
        hi0 + c1 == hi1 + 0x1_0000_0000 * top,
        0x1_0000_0000 * low + c2 * (0x1_0000_0000 * w) == t1 + m * vp,
        hi1 + c2 == last + 0x1_0000_0000 * over,
    ensures
        0x1_0000_0000 * (low + last * w + (top + over) * (0x1_0000_0000 * w)) == t0 + hi0 * (0x1_0000_0000 * w)
            + x * vb + m * vp,
{
    let r = 0x1_0000_0000 * w;
    assert(0x1_0000_0000 * (last * w) == last * r) by (nonlinear_arith)
        requires
            r == 0x1_0000_0000 * w,
    ;
    assert((top + over) * r == top * r + over * r) by (nonlinear_arith);
    assert((hi0 + c1) * r == hi0 * r + c1 * r) by (nonlinear_arith);
    assert((hi1 + 0x1_0000_0000 * top) * r == hi1 * r + 0x1_0000_0000 * (top * r)) by (nonlinear_arith);
    assert((hi1 + c2) * r == hi1 * r + c2 * r) by (nonlinear_arith);
    assert((last + 0x1_0000_0000 * over) * r == last * r + 0x1_0000_0000 * (over * r)) by (nonlinear_arith);
}

/// One round keeps the outer loop's invariant.
proof fn lemma_accumulate(
    before: nat,
    after: nat,
    done: nat,
    q: nat,
    x: nat,
    m: nat,
    vb: nat,
    vp: nat,
    r: nat,
)
    requires
        0x1_0000_0000 * after == before + x * vb + m * vp,
        before * r == done * vb + q * vp,
        before < vb + vp,
        x < 0x1_0000_0000,
        m < 0x1_0000_0000,
        q < r,
    ensures
        after * (0x1_0000_0000 * r) == (done + x * r) * vb + (q + m * r) * vp,
        after < vb + vp,
        q + m * r < 0x1_0000_0000 * r,
{
    assert(after * (0x1_0000_0000 * r) == (0x1_0000_0000 * after) * r) by (nonlinear_arith);
    assert((before + x * vb + m * vp) * r == before * r + (x * r) * vb + (m * r) * vp) by (nonlinear_arith);
    assert((done + x * r) * vb == done * vb + (x * r) * vb) by (nonlinear_arith);
    assert((q + m * r) * vp == q * vp + (m * r) * vp) by (nonlinear_arith);
    assert(x * vb <= 0xffff_ffff * vb) by (nonlinear_arith)
        requires
            x <= 0xffff_ffff,
    ;
    assert(m * vp <= 0xffff_ffff * vp) by (nonlinear_arith)
        requires
            m <= 0xffff_ffff,
    ;
    assert(m * r <= 0xffff_ffff * r) by (nonlinear_arith)
        requires
            m <= 0xffff_ffff,
    ;
}

} // verus!
