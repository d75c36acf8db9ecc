//! Fixed-width numbers held as little-endian 32-bit limbs.
use crate::digits;
use vstd::arithmetic::div_mod::*;
use vstd::arithmetic::mul::*;
use vstd::prelude::*;

verus! {

/// Little-endian 32-bit limbs.
pub type Fe<const L: usize> = [u32; L];

/// The number whose big-endian bytes are `bytes`.
pub fn from_be<const L: usize>(bytes: &[u8]) -> (out: Fe<L>)
    requires
        bytes@.len() == 4 * L,
    ensures
        digits::value(out@) == digits::be_value(bytes@),
        forall|i: int| #![trigger out@[i]]
            0 <= i < L ==> out@[i] == 0x100_0000 * bytes@[4 * (L - i) - 4] + 0x1_0000 * bytes@[4 * (L - i) - 3]
                + 0x100 * bytes@[4 * (L - i) - 2] + bytes@[4 * (L - i) - 1],
{
    let mut out = [0u32; L];
    let len = bytes.len();
    let mut i: usize = 0;
    proof {
        assert(bytes@.skip(len as int).len() == 0);
    }
    while i < L
        invariant
            i <= L,
            len == bytes@.len(),
            len == 4 * L,
            digits::prefix(out@, i as nat) == digits::be_value(bytes@.skip(len - 4 * i)),
            forall|k: int| #![trigger out@[k]]
                0 <= k < i ==> out@[k] == 0x100_0000 * bytes@[4 * (L - k) - 4] + 0x1_0000 * bytes@[4 * (L - k)
                    - 3] + 0x100 * bytes@[4 * (L - k) - 2] + bytes@[4 * (L - k) - 1],
        decreases L - i,
    {
        let end: usize = len - 4 * i;
        let ghost before = out@;
        out[i] = 0x100_0000 * u32::from(bytes[end - 4]) + 0x1_0000 * u32::from(bytes[end - 3]) + 0x100
            * u32::from(bytes[end - 2]) + u32::from(bytes[end - 1]);
        proof {
            digits::lemma_prefix_agrees(before, out@, i as nat);
            let word = bytes@.subrange(end - 4, end as int);
            let rest = bytes@.skip(end as int);
            assert(bytes@.skip(end - 4) =~= word + rest);
            digits::lemma_be_prepend(word, rest, out@[i as int], i as nat);
        }
        i = i + 1;
    }
    proof {
        assert(bytes@.skip(0) =~= bytes@);
    }
    out
}

/// Writes the big-endian bytes of `a` to `out`.
pub fn to_be<const L: usize>(a: &Fe<L>, out: &mut [u8])
    requires
        old(out)@.len() == 4 * L,
    ensures
        final(out)@.len() == 4 * L,
        digits::be_value(final(out)@) == digits::value(a@),
        forall|i: int| #![trigger a@[i]]
            0 <= i < L ==> a@[i] == 0x100_0000 * final(out)@[4 * (L - i) - 4] + 0x1_0000 * final(out)@[4 * (L - i)
                - 3] + 0x100 * final(out)@[4 * (L - i) - 2] + final(out)@[4 * (L - i) - 1],
{
    let len = out.len();
    let mut i: usize = 0;
    proof {
        assert(out@.skip(len as int).len() == 0);
    }
    while i < L
        invariant
            i <= L,
            len == out@.len(),
            len == 4 * L,
            digits::be_value(out@.skip(len - 4 * i)) == digits::prefix(a@, i as nat),
            forall|k: int| #![trigger a@[k]]
                0 <= k < i ==> a@[k] == 0x100_0000 * out@[4 * (L - k) - 4] + 0x1_0000 * out@[4 * (L - k) - 3]
                    + 0x100 * out@[4 * (L - k) - 2] + out@[4 * (L - k) - 1],
        decreases L - i,
    {
        let limb = a[i];
        let end: usize = len - 4 * i;
        let ghost rest = out@.skip(end as int);
        out[end - 4] = (limb >> 24) as u8;
        out[end - 3] = (limb >> 16) as u8;
        out[end - 2] = (limb >> 8) as u8;
        out[end - 1] = limb as u8;
        proof {
            assert(limb == 0x100_0000 * ((limb >> 24) as u8) + 0x1_0000 * ((limb >> 16) as u8) + 0x100
                * ((limb >> 8) as u8) + (limb as u8)) by (bit_vector);
            let word = out@.subrange(end - 4, end as int);
            assert(out@.skip(end - 4) =~= word + rest);
            digits::lemma_be_prepend(word, rest, limb, i as nat);
        }
        i = i + 1;
    }
    proof {
        assert(out@.skip(0) =~= out@);
    }
}

/// Whether `a` is less than `b`.
pub fn lt<const L: usize>(a: &Fe<L>, b: &Fe<L>) -> (res: bool)
    ensures
        res == (digits::value(a@) < digits::value(b@)),
{
    let mut i: usize = L;
    while i > 0
        invariant
            i <= L,
            digits::value(a@) - digits::prefix(a@, i as nat) == digits::value(b@) - digits::prefix(b@, i as nat),
        decreases i,
    {
        i = i - 1;
        if a[i] != b[i] {
            proof {
                let r = digits::radix(i as nat);
                digits::lemma_prefix_bound(a@, i as nat);
                digits::lemma_prefix_bound(b@, i as nat);
                if a[i as int] < b[i as int] {
                    digits::lemma_digit_dominates(a[i as int] as nat, b[i as int] as nat, r);
                } else {
                    digits::lemma_digit_dominates(b[i as int] as nat, a[i as int] as nat, r);
                }
            }
            return a[i] < b[i];
        }
    }
    false
}

/// The sum of `a` and `b`, and whether it carried out of the top limb.
pub fn add<const L: usize>(a: &Fe<L>, b: &Fe<L>) -> (res: (Fe<L>, bool))
    ensures
        digits::value(res.0@) == (digits::value(a@) + digits::value(b@)) % digits::radix(L as nat),
        res.1 == (digits::value(a@) + digits::value(b@) >= digits::radix(L as nat)),
        digits::value(res.0@) + (if res.1 { digits::radix(L as nat) } else { 0 }) == digits::value(a@)
            + digits::value(b@),
{
    let mut out = [0u32; L];
    let mut carry: u64 = 0;
    let mut i: usize = 0;
    while i < L
        invariant
            i <= L,
            carry <= 1,
            digits::prefix(out@, i as nat) + carry * digits::radix(i as nat) == digits::prefix(a@, i as nat)
                + digits::prefix(b@, i as nat),
        decreases L - i,
    {
        let s: u64 = u64::from(a[i]) + u64::from(b[i]) + carry;
        let ghost before = out@;
        let ghost old_carry = carry;
        out[i] = s as u32;
        carry = s >> 32;
        proof {
            assert(s == (s as u32) + 0x1_0000_0000u64 * (s >> 32) && (s <= 0x1_ffff_ffffu64 ==> s >> 32 <= 1)) by (bit_vector);
            digits::lemma_prefix_agrees(before, out@, i as nat);
            digits::lemma_carry(s as nat, (s as u32) as nat, carry as nat, i as nat);
            let r = digits::radix(i as nat);
            assert((a[i as int] + b[i as int] + old_carry) * r == a[i as int] * r + b[i as int] * r + old_carry * r) by (nonlinear_arith);
        }
        i = i + 1;
    }
    proof {
        let r = digits::radix(L as nat);
        let sum = digits::value(a@) + digits::value(b@);
        digits::lemma_prefix_bound(out@, L as nat);
        lemma_mul_basics(r as int);
        lemma_fundamental_div_mod_converse(sum as int, r as int, carry as int, digits::value(out@) as int);
    }
    (out, carry != 0)
}

/// The difference of `a` and `b`, and whether it borrowed past the top limb.
pub fn sub<const L: usize>(a: &Fe<L>, b: &Fe<L>) -> (res: (Fe<L>, bool))
    ensures
        digits::value(res.0@) == (digits::value(a@) - digits::value(b@)) % digits::radix(L as nat) as int,
        res.1 == (digits::value(a@) < digits::value(b@)),
        digits::value(res.0@) + digits::value(b@) == digits::value(a@) + (if res.1 {
            digits::radix(L as nat)
        } else {
            0
        }),
{
    let mut out = [0u32; L];
    let mut borrow: u64 = 0;
    let mut i: usize = 0;
    while i < L
        invariant
            i <= L,
            borrow <= 1,
            digits::prefix(out@, i as nat) + digits::prefix(b@, i as nat) == digits::prefix(a@, i as nat)
                + borrow * digits::radix(i as nat),
        decreases L - i,
    {
        let ai = a[i];
        let bi = b[i];
        let d: u64 = u64::from(ai).wrapping_sub(u64::from(bi)).wrapping_sub(borrow);
        let ghost before = out@;
        let ghost old_borrow = borrow;
        out[i] = d as u32;
        borrow = (d >> 63) & 1;
        proof {
            let total: int = ai - bi - old_borrow;
            assert(d == if total < 0 { total + 0x1_0000_0000_0000_0000 } else { total });
            assert(d <= 0xffff_ffffu64 ==> (d >> 63) & 1 == 0 && d as u32 == d) by (bit_vector);
            assert(d >= 0xffff_ffff_0000_0000u64 ==> (d >> 63) & 1 == 1 && (d as u32) == d
                - 0xffff_ffff_0000_0000u64) by (bit_vector);
            digits::lemma_prefix_agrees(before, out@, i as nat);
            digits::lemma_carry((ai + 0x1_0000_0000 * borrow) as nat, ai as nat, borrow as nat, i as nat);
            let r = digits::radix(i as nat);
            assert((out@[i as int] + bi + old_borrow) * r == out@[i as int] * r + bi * r + old_borrow * r)
                by (nonlinear_arith);
        }
        i = i + 1;
    }
    proof {
        let r = digits::radix(L as nat);
        let difference = digits::value(a@) - digits::value(b@);
        digits::lemma_prefix_bound(out@, L as nat);
        lemma_mul_basics(r as int);
        assert(-(borrow as int) * r == -(borrow * r)) by (nonlinear_arith);
        lemma_fundamental_div_mod_converse(difference, r as int, -(borrow as int), digits::value(out@) as int);
    }
    (out, borrow != 0)
}

/// The number `v`.
pub fn small<const L: usize>(v: u32) -> (out: Fe<L>)
    requires
        L > 0,
    ensures
        digits::value(out@) == v,
        out@[0] == v,
        forall|i: int| 1 <= i < L ==> out@[i] == 0,
{
    let mut out = [0u32; L];
    out[0] = v;
    proof {
        digits::lemma_prefix_single(out@, L as nat);
    }
    out
}

/// Whether `a` and `b` are the same limbs.
pub(crate) fn same<const L: usize>(a: &Fe<L>, b: &Fe<L>) -> (res: bool)
    ensures
        res == (digits::value(a@) == digits::value(b@)),
{
    let mut i: usize = 0;
    while i < L
        invariant
            i <= L,
            forall|j: int| 0 <= j < i ==> a[j] == b[j],
        decreases L - i,
    {
        if a[i] != b[i] {
            proof {
                if digits::value(a@) == digits::value(b@) {
                    digits::law_limbs_unique(a@, b@);
                }
            }
            return false;
        }
        i = i + 1;
    }
    proof {
        digits::lemma_prefix_agrees(a@, b@, L as nat);
    }
    true
}

/// Numbers are compared by the highest limb in which they differ.
pub proof fn law_order_of_limbs(a: Seq<u32>, b: Seq<u32>, i: int)
    requires
        a.len() == b.len(),
        0 <= i < a.len(),
        a[i] < b[i],
        forall|j: int| i < j < a.len() ==> a[j] == b[j],
    ensures
        digits::value(a) < digits::value(b),
{
    digits::lemma_prefix_bound(a, i as nat);
    digits::lemma_digit_dominates(a[i] as nat, b[i] as nat, digits::radix(i as nat));
    lemma_same_top(a, b, i as nat + 1, a.len());
}

/// Equal limbs from `k` on contribute the same to both numbers.
proof fn lemma_same_top(a: Seq<u32>, b: Seq<u32>, k: nat, n: nat)
    requires
        k <= n,
        forall|j: int| k <= j < n ==> a[j] == b[j],
    ensures
        digits::prefix(a, n) - digits::prefix(a, k) == digits::prefix(b, n) - digits::prefix(b, k),
    decreases n,
{
    if k < n {
        lemma_same_top(a, b, k, (n - 1) as nat);
    }
}

/// Reading back what was written: `a` written by `to_be` as `bytes` is read by `from_be` as `a`.
pub proof fn law_read_after_write(a: Seq<u32>, bytes: Seq<u8>, back: Seq<u32>)
    requires
        bytes.len() == 4 * a.len(),
        digits::be_value(bytes) == digits::value(a),
        back.len() == a.len(),
        digits::value(back) == digits::be_value(bytes),
    ensures
        back == a,
{
    digits::law_limbs_unique(back, a);
}

/// Writing back what was read: `bytes` read by `from_be` as `a` are written by `to_be` as `bytes`.
pub proof fn law_write_after_read(bytes: Seq<u8>, a: Seq<u32>, back: Seq<u8>)
    requires
        bytes.len() == 4 * a.len(),
        digits::value(a) == digits::be_value(bytes),
        back.len() == bytes.len(),
        digits::be_value(back) == digits::value(a),
    ensures
        back == bytes,
{
    digits::law_bytes_unique(back, bytes);
}

/// `sub` undoes `add`: taking `b` off the sum of `a` and `b` gives `a` again, and borrows exactly if
/// the sum carried.
pub proof fn law_sub_undoes_add(a: Seq<u32>, b: Seq<u32>, sum: Seq<u32>, carry: bool, back: Seq<u32>, borrow: bool)
    requires
        a.len() == b.len() == sum.len() == back.len(),
        digits::value(sum) == (digits::value(a) + digits::value(b)) % digits::radix(a.len()),
        carry == (digits::value(a) + digits::value(b) >= digits::radix(a.len())),
        digits::value(back) == (digits::value(sum) - digits::value(b)) % digits::radix(a.len()) as int,
        borrow == (digits::value(sum) < digits::value(b)),
    ensures
        back == a,
        borrow == carry,
{
    let r = digits::radix(a.len()) as int;
    digits::law_limbs_bound(a);
    digits::law_limbs_bound(b);
    let total = (digits::value(a) + digits::value(b)) as int;
    if carry {
        lemma_fundamental_div_mod_converse(total, r, 1, total - r);
        lemma_fundamental_div_mod_converse(digits::value(a) - r, r, -1, digits::value(a) as int);
    } else {
        lemma_small_mod(total as nat, r as nat);
        lemma_small_mod(digits::value(a), r as nat);
    }
    digits::law_limbs_unique(back, a);
}

} // verus!
