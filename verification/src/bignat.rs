//! Natural numbers of any size, as needed to round decimal and binary
//! fractions exactly.

use vstd::prelude::*;
use vstd::arithmetic::power2::{pow2, lemma_pow2_adds, lemma_pow2_pos, lemma2_to64, lemma_pow2_unfold};

verus! {

/// The weight of limb `i`: 2 to the power 32 i.
pub open spec fn weight(i: nat) -> nat {
    pow2(32 * i)
}

/// The number that a little-endian sequence of 32-bit limbs denotes.
pub open spec fn limbs_value(s: Seq<u32>) -> nat
    decreases s.len(),
{
    if s.len() == 0 {
        0
    } else {
        limbs_value(s.drop_last()) + (s.last() as nat) * weight((s.len() - 1) as nat)
    }
}

/// Limb `i`, taken as zero beyond the end.
pub open spec fn limb_at(s: Seq<u32>, i: int) -> nat {
    if 0 <= i < s.len() {
        s[i] as nat
    } else {
        0
    }
}

/// The number denoted by the limbs below index `i`.
pub open spec fn low_value(s: Seq<u32>, i: int) -> nat {
    limbs_value(s.take(if i < s.len() { i } else { s.len() as int }))
}

pub proof fn lemma_weight_step(i: nat)
    ensures
        weight(i + 1) == 0x1_0000_0000 * weight(i),
        weight(i) > 0,
        weight(0) == 1,
{
    lemma_pow2_adds(32, 32 * i);
    lemma2_to64();
    lemma_pow2_pos(32 * i);
    assert(32 * (i + 1) == 32 + 32 * i);
}

pub proof fn lemma_push_value(s: Seq<u32>, x: u32)
    ensures
        limbs_value(s.push(x)) == limbs_value(s) + (x as nat) * weight(s.len()),
{
    assert(s.push(x).drop_last() =~= s);
}

pub proof fn lemma_value_bound(s: Seq<u32>)
    ensures
        limbs_value(s) < weight(s.len()),
    decreases s.len(),
{
    if s.len() == 0 {
        lemma_weight_step(0);
    } else {
        lemma_value_bound(s.drop_last());
        let w = weight((s.len() - 1) as nat);
        lemma_weight_step((s.len() - 1) as nat);
        let last = s.last() as nat;
        assert(last * w <= 0xffff_ffff * w) by (nonlinear_arith)
            requires
                last <= 0xffff_ffff,
        ;
    }
}

pub proof fn lemma_low_step(s: Seq<u32>, i: int)
    requires
        0 <= i,
    ensures
        low_value(s, i + 1) == low_value(s, i) + limb_at(s, i) * weight(i as nat),
{
    if i < s.len() {
        assert(s.take(i + 1) =~= s.take(i).push(s[i]));
        lemma_push_value(s.take(i), s[i]);
    }
}

pub proof fn lemma_low_full(s: Seq<u32>, i: int)
    requires
        s.len() <= i,
    ensures
        low_value(s, i) == limbs_value(s),
{
    assert(s.take(s.len() as int) =~= s);
}

pub proof fn lemma_first_rest(s: Seq<u32>)
    requires
        s.len() > 0,
    ensures
        limbs_value(s) == (s[0] as nat) + 0x1_0000_0000 * limbs_value(s.skip(1)),
    decreases s.len(),
{
    let dl = s.drop_last();
    if s.len() == 1 {
        lemma_weight_step(0);
        assert(limbs_value(dl) == 0);
        assert(limbs_value(s.skip(1)) == 0);
    } else {
        lemma_first_rest(dl);
        assert(dl.skip(1) =~= s.skip(1).drop_last());
        lemma_weight_step((s.len() - 2) as nat);
        let last = s.last() as nat;
        let w = weight((s.len() - 2) as nat);
        let rest = limbs_value(dl.skip(1));
        assert(s.skip(1).last() == s.last());
        assert(limbs_value(s.skip(1)) == rest + last * w);
        assert(0x1_0000_0000 * (rest + last * w) == 0x1_0000_0000 * rest + last * (0x1_0000_0000
            * w)) by (nonlinear_arith);
    }
}

pub proof fn lemma_zeros_prefix(k: nat, s: Seq<u32>)
    ensures
        limbs_value(Seq::new(k, |i: int| 0u32) + s) == weight(k) * limbs_value(s),
    decreases s.len(), k,
{
    let z = Seq::new(k, |i: int| 0u32);
    if s.len() == 0 {
        assert(z + s =~= z);
        assert(limbs_value(s) == 0);
        assert(weight(k) * 0 == 0);
        if k > 0 {
            let z1 = Seq::new((k - 1) as nat, |i: int| 0u32);
            assert(z.drop_last() =~= z1 + s);
            lemma_zeros_prefix((k - 1) as nat, s);
            assert(weight((k - 1) as nat) * 0 == 0);
            assert(z.last() == 0u32);
            assert(0 * weight((k - 1) as nat) == 0);
            assert(limbs_value(z) == limbs_value(z.drop_last()) + (z.last() as nat) * weight(
                (k - 1) as nat,
            ));
        } else {
            assert(limbs_value(z) == 0);
        }
    } else {
        let dl = s.drop_last();
        let zs = z + s;
        assert(zs.drop_last() =~= z + dl);
        assert(zs.last() == s.last());
        assert(zs.len() == k + s.len());
        lemma_zeros_prefix(k, dl);
        lemma_pow2_adds(32 * k, 32 * ((s.len() - 1) as nat));
        let last = s.last() as nat;
        let wk = weight(k);
        let wl = weight((s.len() - 1) as nat);
        assert(32 * (k + s.len() - 1) == 32 * k + 32 * (s.len() - 1));
        assert(weight((k + s.len() - 1) as nat) == wk * wl);
        assert(limbs_value(zs) == limbs_value(zs.drop_last()) + last * weight(
            (zs.len() - 1) as nat,
        ));
        assert(limbs_value(s) == limbs_value(dl) + last * wl);
        assert(wk * (limbs_value(dl) + last * wl) == wk * limbs_value(dl) + last * (wk * wl))
            by (nonlinear_arith);
    }
}

/// A natural number held as 32-bit limbs, least significant first.
pub struct BigNat {
    limbs: Vec<u32>,
}

impl View for BigNat {
    type V = nat;

    closed spec fn view(&self) -> nat {
        limbs_value(self.limbs@)
    }
}

impl BigNat {
    pub fn zero() -> (r: BigNat)
        ensures
            r@ == 0,
    {
        BigNat { limbs: Vec::new() }
    }

    pub fn from_u64(x: u64) -> (r: BigNat)
        ensures
            r@ == x,
    {
        let lo: u32 = (x % 0x1_0000_0000) as u32;
        let hi: u32 = (x / 0x1_0000_0000) as u32;
        let mut limbs: Vec<u32> = Vec::new();
        limbs.push(lo);
        limbs.push(hi);
        proof {
            let s0 = Seq::<u32>::empty();
            lemma_push_value(s0, lo);
            lemma_push_value(s0.push(lo), hi);
            lemma_weight_step(0);
            assert(limbs@ =~= s0.push(lo).push(hi));
            assert(limbs_value(s0) == 0);
            assert(weight(1) == 0x1_0000_0000);
            assert((lo as nat) * 1 == lo as nat);
            assert(limbs_value(s0.push(lo)) == lo as nat);
            assert(limbs_value(limbs@) == (lo as nat) + (hi as nat) * 0x1_0000_0000);
        }
        BigNat { limbs }
    }

    pub fn copy(&self) -> (r: BigNat)
        ensures
            r@ == self@,
    {
        let mut limbs: Vec<u32> = Vec::new();
        let mut i: usize = 0;
        while i < self.limbs.len()
            invariant
                i <= self.limbs.len(),
                limbs@ == self.limbs@.take(i as int),
            decreases self.limbs.len() - i,
        {
            limbs.push(self.limbs[i]);
            assert(self.limbs@.take(i + 1) =~= self.limbs@.take(i as int).push(self.limbs@[i as int]));
            i += 1;
        }
        assert(self.limbs@.take(self.limbs.len() as int) =~= self.limbs@);
        BigNat { limbs }
    }

    pub fn is_zero(&self) -> (b: bool)
        ensures
            b == (self@ == 0),
    {
        let mut i: usize = 0;
        while i < self.limbs.len()
            invariant
                i <= self.limbs.len(),
                low_value(self.limbs@, i as int) == 0,
            decreases self.limbs.len() - i,
        {
            if self.limbs[i] != 0 {
                proof {
                    // a nonzero limb makes every longer prefix nonzero
                    lemma_nonzero_limb(self.limbs@, i as int);
                }
                return false;
            }
            proof {
                lemma_low_step(self.limbs@, i as int);
                assert(0 * weight(i as nat) == 0) by (nonlinear_arith);
            }
            i += 1;
        }
        proof {
            lemma_low_full(self.limbs@, i as int);
        }
        true
    }

    pub fn add(&self, other: &BigNat) -> (r: BigNat)
        ensures
            r@ == self@ + other@,
    {
        let n: usize = if self.limbs.len() > other.limbs.len() {
            self.limbs.len()
        } else {
            other.limbs.len()
        };
        let mut out: Vec<u32> = Vec::new();
        let mut carry: u64 = 0;
        let mut i: usize = 0;
        while i < n
            invariant
                i <= n,
                n >= self.limbs.len(),
                n >= other.limbs.len(),
                out@.len() == i,
                carry <= 1,
                limbs_value(out@) + carry * weight(i as nat) == low_value(self.limbs@, i as int)
                    + low_value(other.limbs@, i as int),
            decreases n - i,
        {
            let x: u64 = if i < self.limbs.len() { self.limbs[i] as u64 } else { 0 };
            let y: u64 = if i < other.limbs.len() { other.limbs[i] as u64 } else { 0 };
            let sum: u64 = x + y + carry;
            let digit: u32 = (sum % 0x1_0000_0000) as u32;
            let next: u64 = sum / 0x1_0000_0000;
            proof {
                lemma_push_value(out@, digit);
                lemma_low_step(self.limbs@, i as int);
                lemma_low_step(other.limbs@, i as int);
                lemma_weight_step(i as nat);
                let w = weight(i as nat);
                assert(x == limb_at(self.limbs@, i as int));
                assert(y == limb_at(other.limbs@, i as int));
                assert(digit * w + next * (0x1_0000_0000 * w) == x * w + y * w + carry * w)
                    by (nonlinear_arith)
                    requires
                        digit + next * 0x1_0000_0000 == x + y + carry,
                ;
            }
            out.push(digit);
            carry = next;
            i += 1;
        }
        proof {
            lemma_low_full(self.limbs@, i as int);
            lemma_low_full(other.limbs@, i as int);
        }
        if carry > 0 {
            proof {
                lemma_push_value(out@, carry as u32);
            }
            out.push(carry as u32);
        } else {
            assert(carry * weight(i as nat) == 0);
        }
        BigNat { limbs: out }
    }

    /// The difference `self - other`, or `None` when `other` is the larger.
    pub fn checked_sub(&self, other: &BigNat) -> (r: Option<BigNat>)
        ensures
            match r {
                Some(d) => self@ >= other@ && d@ == self@ - other@,
                None => self@ < other@,
            },
    {
        let n: usize = if self.limbs.len() > other.limbs.len() {
            self.limbs.len()
        } else {
            other.limbs.len()
        };
        let mut out: Vec<u32> = Vec::new();
        let mut borrow: u64 = 0;
        let mut i: usize = 0;
        while i < n
            invariant
                i <= n,
                n >= self.limbs.len(),
                n >= other.limbs.len(),
                out@.len() == i,
                borrow <= 1,
                limbs_value(out@) + low_value(other.limbs@, i as int) == low_value(
                    self.limbs@,
                    i as int,
                ) + borrow * weight(i as nat),
            decreases n - i,
        {
            let x: u64 = if i < self.limbs.len() { self.limbs[i] as u64 } else { 0 };
            let y: u64 = if i < other.limbs.len() { other.limbs[i] as u64 } else { 0 };
            let t: u64 = x + 0x1_0000_0000 - y - borrow;
            let digit: u32 = (t % 0x1_0000_0000) as u32;
            let next: u64 = 1 - t / 0x1_0000_0000;
            proof {
                lemma_push_value(out@, digit);
                lemma_low_step(self.limbs@, i as int);
                lemma_low_step(other.limbs@, i as int);
                lemma_weight_step(i as nat);
                let w = weight(i as nat);
                assert(x == limb_at(self.limbs@, i as int));
                assert(y == limb_at(other.limbs@, i as int));
                assert(digit * w + y * w + borrow * w == x * w + next * (0x1_0000_0000 * w))
                    by (nonlinear_arith)
                    requires
                        digit + y + borrow == x + next * 0x1_0000_0000,
                ;
            }
            out.push(digit);
            borrow = next;
            i += 1;
        }
        proof {
            lemma_low_full(self.limbs@, i as int);
            lemma_low_full(other.limbs@, i as int);
            lemma_value_bound(out@);
        }
        if borrow == 0 {
            assert(borrow * weight(i as nat) == 0);
            Some(BigNat { limbs: out })
        } else {
            assert(borrow * weight(i as nat) == weight(i as nat));
            None
        }
    }

    pub fn lt(&self, other: &BigNat) -> (b: bool)
        ensures
            b == (self@ < other@),
    {
        self.checked_sub(other).is_none()
    }

    pub fn le(&self, other: &BigNat) -> (b: bool)
        ensures
            b == (self@ <= other@),
    {
        other.checked_sub(self).is_some()
    }

    pub fn eq(&self, other: &BigNat) -> (b: bool)
        ensures
            b == (self@ == other@),
    {
        match self.checked_sub(other) {
            Some(d) => d.is_zero(),
            None => false,
        }
    }

    pub fn mul_small(&self, m: u32) -> (r: BigNat)
        ensures
            r@ == self@ * m,
    {
        let mut out: Vec<u32> = Vec::new();
        let mut carry: u64 = 0;
        let mut i: usize = 0;
        proof {
            assert(low_value(self.limbs@, 0) == 0);
            assert(0 * (m as nat) == 0);
            assert(0 * weight(0) == 0);
        }
        while i < self.limbs.len()
            invariant
                i <= self.limbs.len(),
                out@.len() == i,
                carry < 0x1_0000_0000,
                limbs_value(out@) + carry * weight(i as nat) == low_value(self.limbs@, i as int)
                    * m,
            decreases self.limbs.len() - i,
        {
            let x: u64 = self.limbs[i] as u64;
            assert(x * (m as u64) + carry <= 0xffff_ffff * 0xffff_ffff + 0xffff_ffff)
                by (nonlinear_arith)
                requires
                    x <= 0xffff_ffff,
                    m <= 0xffff_ffff,
                    carry <= 0xffff_ffff,
            ;
            let t: u64 = x * (m as u64) + carry;
            let digit: u32 = (t % 0x1_0000_0000) as u32;
            let next: u64 = t / 0x1_0000_0000;
            proof {
                lemma_push_value(out@, digit);
                lemma_low_step(self.limbs@, i as int);
                lemma_weight_step(i as nat);
                let w = weight(i as nat);
                let low = low_value(self.limbs@, i as int);
                assert(x == limb_at(self.limbs@, i as int));
                assert(digit * w + next * (0x1_0000_0000 * w) + low * m == (low + x * w) * m
                    + carry * w) by (nonlinear_arith)
                    requires
                        digit + next * 0x1_0000_0000 == x * m + carry,
                ;
            }
            out.push(digit);
            carry = next;
            i += 1;
        }
        proof {
            lemma_low_full(self.limbs@, i as int);
        }
        if carry > 0 {
            proof {
                lemma_push_value(out@, carry as u32);
            }
            out.push(carry as u32);
        } else {
            assert(carry * weight(i as nat) == 0);
        }
        BigNat { limbs: out }
    }

    pub fn add_small(&self, d: u32) -> (r: BigNat)
        ensures
            r@ == self@ + d,
    {
        let other = BigNat::from_u64(d as u64);
        self.add(&other)
    }

    /// `self` multiplied by 2 to the power `k`.
    pub fn shl(&self, k: usize) -> (r: BigNat)
        ensures
            r@ == self@ * pow2(k as nat),
    {
        let words: usize = k / 32;
        let bits: usize = k % 32;
        let mut factor: u32 = 1;
        let mut j: usize = 0;
        proof {
            lemma2_to64();
        }
        while j < bits
            invariant
                j <= bits,
                bits < 32,
                factor == pow2(j as nat),
                pow2(31) == 0x8000_0000,
            decreases bits - j,
        {
            proof {
                lemma_pow2_unfold((j + 1) as nat);
                if j + 1 < 31 {
                    vstd::arithmetic::power2::lemma_pow2_strictly_increases((j + 1) as nat, 31);
                }
            }
            factor = factor * 2;
            j += 1;
        }
        let scaled = self.mul_small(factor);
        let mut out: Vec<u32> = Vec::new();
        let mut i: usize = 0;
        while i < words
            invariant
                i <= words,
                out@ =~= Seq::new(i as nat, |t: int| 0u32),
            decreases words - i,
        {
            out.push(0);
            i += 1;
        }
        let mut i: usize = 0;
        while i < scaled.limbs.len()
            invariant
                i <= scaled.limbs.len(),
                out@ =~= Seq::new(words as nat, |t: int| 0u32) + scaled.limbs@.take(i as int),
            decreases scaled.limbs.len() - i,
        {
            out.push(scaled.limbs[i]);
            i += 1;
        }
        proof {
            assert(scaled.limbs@.take(scaled.limbs.len() as int) =~= scaled.limbs@);
            lemma_zeros_prefix(words as nat, scaled.limbs@);
            lemma_pow2_adds(32 * (words as nat), bits as nat);
            assert(32 * words + bits == k);
            assert(weight(words as nat) * (self@ * pow2(bits as nat)) == self@ * (weight(
                words as nat,
            ) * pow2(bits as nat))) by (nonlinear_arith);
        }
        BigNat { limbs: out }
    }

    /// The number of bits needed to write `self`: 0 for zero, and otherwise
    /// the `n` with 2^(n-1) <= self < 2^n.
    pub fn bit_length(&self) -> (n: u128)
        ensures
            n <= 32 * usize::MAX,
            self@ == 0 ==> n == 0,
            self@ > 0 ==> n > 0 && pow2((n - 1) as nat) <= self@ < pow2(n as nat),
    {
        let mut top: usize = self.limbs.len();
        assert(self.limbs@.take(top as int) =~= self.limbs@);
        while top > 0 && self.limbs[top - 1] == 0
            invariant
                top <= self.limbs.len(),
                limbs_value(self.limbs@) == limbs_value(self.limbs@.take(top as int)),
            decreases top,
        {
            proof {
                let s = self.limbs@.take(top as int);
                assert(s.drop_last() =~= self.limbs@.take(top - 1));
                assert(0 * weight((top - 1) as nat) == 0);
            }
            top -= 1;
        }
        if top == 0 {
            assert(limbs_value(self.limbs@.take(0)) == 0);
            return 0;
        }
        let lead: u32 = self.limbs[top - 1];
        let mut x: u32 = lead;
        let mut b: usize = 0;
        proof {
            lemma2_to64();
        }
        while x > 0
            invariant
                b <= 32,
                x * pow2(b as nat) <= lead,
                lead < (x + 1) * pow2(b as nat),
                b > 0 ==> pow2((b - 1) as nat) <= lead,
                pow2(32) == 0x1_0000_0000,
            decreases x,
        {
            proof {
                let p = pow2(b as nat);
                lemma_pow2_unfold((b + 1) as nat);
                lemma_pow2_pos(b as nat);
                assert(p <= lead) by (nonlinear_arith)
                    requires
                        x * p <= lead,
                        x >= 1,
                ;
                if b >= 32 {
                    vstd::arithmetic::power2::lemma_pow2_strictly_increases(32, (b + 1) as nat);
                    if b > 32 {
                        vstd::arithmetic::power2::lemma_pow2_strictly_increases(32, b as nat);
                    }
                }
                let h = (x / 2) as int;
                assert(h * (2 * p) <= x * p && (x + 1) * p <= (h + 1) * (2 * p))
                    by (nonlinear_arith)
                    requires
                        2 * h <= x,
                        x <= 2 * h + 1,
                        p > 0,
                ;
            }
            x = x / 2;
            b += 1;
        }
        proof {
            let s = self.limbs@.take(top as int);
            let dl = s.drop_last();
            lemma_value_bound(dl);
            let e: nat = 32 * ((top - 1) as nat);
            let w = weight((top - 1) as nat);
            let pb = pow2(b as nat);
            assert(s.last() == lead);
            assert(limbs_value(s) == limbs_value(dl) + (lead as nat) * w);
            assert(1 * pb == pb);
            assert(b > 0) by {
                if b == 0 {
                    lemma2_to64();
                }
            }
            let pb1 = pow2((b - 1) as nat);
            lemma_pow2_adds(e as nat, b as nat);
            lemma_pow2_adds(e as nat, (b - 1) as nat);
            lemma_pow2_pos(e as nat);
            assert(pow2((e + b) as nat) == w * pb);
            assert(pow2((e + b - 1) as nat) == w * pb1);
            assert(w * pb1 <= lead * w && (lead + 1) * w <= w * pb) by (nonlinear_arith)
                requires
                    pb1 <= lead,
                    lead + 1 <= pb,
                    w > 0,
            ;
            assert((lead + 1) * w == lead * w + w) by (nonlinear_arith);
            lemma_pow2_pos((e + b - 1) as nat);
        }
        32 * ((top - 1) as u128) + (b as u128)
    }

    /// Quotient and remainder of the division by `d`, for a quotient known
    /// to have at most `k` bits.
    pub fn div_rem_bounded(&self, d: &BigNat, k: usize) -> (r: (u64, BigNat))
        requires
            d@ > 0,
            k <= 64,
            self@ < d@ * pow2(k as nat),
        ensures
            self@ == r.0 * d@ + r.1@,
            r.1@ < d@,
    {
        let mut rem = self.copy();
        let mut quot: u64 = 0;
        let mut i: usize = k;
        while i > 0
            invariant
                i <= k,
                k <= 64,
                d@ > 0,
                self@ == quot * d@ + rem@,
                rem@ < d@ * pow2(i as nat),
                self@ < d@ * pow2(k as nat),
            decreases i,
        {
            let bit: u64 = pow2_u64(i - 1);
            let t = d.shl(i - 1);
            proof {
                lemma_pow2_unfold(i as nat);
            }
            match rem.checked_sub(&t) {
                Some(diff) => {
                    proof {
                        let dv = d@;
                        let p = pow2((i - 1) as nat);
                        let pk = pow2(k as nat);
                        let q = quot as nat;
                        let rv = rem@;
                        assert(rv - dv * p < dv * p && q * dv + rv == (q + p) * dv + (rv - dv
                            * p)) by (nonlinear_arith)
                            requires
                                rv < dv * (2 * p),
                                rv >= dv * p,
                        ;
                        assert(q + p < pk) by (nonlinear_arith)
                            requires
                                (q + p) * dv + (rv - dv * p) < dv * pk,
                                rv - dv * p >= 0,
                                dv > 0,
                        ;
                        if k < 64 {
                            vstd::arithmetic::power2::lemma_pow2_strictly_increases(k as nat, 64);
                        }
                        lemma2_to64();
                    }
                    rem = diff;
                    quot = quot + bit;
                },
                None => {},
            }
            i -= 1;
        }
        proof {
            lemma2_to64();
            assert(d@ * 1 == d@);
        }
        (quot, rem)
    }

    /// Quotient and remainder of the division by a small number.
    pub fn divmod_small(&self, d: u32) -> (r: (BigNat, u32))
        requires
            d > 0,
        ensures
            self@ == r.0@ * d + r.1,
            r.1 < d,
    {
        let n: usize = self.limbs.len();
        let mut q: Vec<u32> = Vec::new();
        let mut j: usize = 0;
        while j < n
            invariant
                j <= n,
                q@.len() == j,
            decreases n - j,
        {
            q.push(0);
            j += 1;
        }
        let mut rem: u64 = 0;
        let mut i: usize = n;
        proof {
            assert(limbs_value(self.limbs@.skip(n as int)) == 0);
            assert(limbs_value(q@.skip(n as int)) == 0);
            assert(0 * d == 0);
        }
        while i > 0
            invariant
                i <= n,
                n == self.limbs.len(),
                q@.len() == n,
                rem < d,
                limbs_value(self.limbs@.skip(i as int)) == limbs_value(q@.skip(i as int)) * d
                    + rem,
            decreases i,
        {
            i -= 1;
            let cur: u64 = rem * 0x1_0000_0000 + self.limbs[i] as u64;
            let digit: u64 = cur / (d as u64);
            let next: u64 = cur % (d as u64);
            proof {
                vstd::arithmetic::div_mod::lemma_fundamental_div_mod(cur as int, d as int);
                assert(digit * d + next == cur) by (nonlinear_arith)
                    requires
                        cur == d * digit + next,
                ;
                assert(digit < 0x1_0000_0000) by (nonlinear_arith)
                    requires
                        digit * d <= cur,
                        cur < d * 0x1_0000_0000,
                        d > 0,
                ;
            }
            let ghost before = q@;
            q.set(i, digit as u32);
            proof {
                let a = self.limbs@.skip(i as int);
                let qa = q@.skip(i as int);
                lemma_first_rest(a);
                lemma_first_rest(qa);
                assert(a.skip(1) =~= self.limbs@.skip(i + 1));
                assert(qa.skip(1) =~= before.skip(i + 1));
                let ra = limbs_value(a.skip(1));
                let rq = limbs_value(qa.skip(1));
                assert((digit + 0x1_0000_0000 * rq) * d + next == self.limbs@[i as int]
                    + 0x1_0000_0000 * (rq * d + rem)) by (nonlinear_arith)
                    requires
                        digit * d + next == rem * 0x1_0000_0000 + self.limbs@[i as int],
                ;
            }
            rem = next;
        }
        proof {
            assert(self.limbs@.skip(0) =~= self.limbs@);
            assert(q@.skip(0) =~= q@);
        }
        (BigNat { limbs: q }, rem as u32)
    }
}

/// A limb that is not zero makes the number not zero.
pub proof fn lemma_nonzero_limb(s: Seq<u32>, i: int)
    requires
        0 <= i < s.len(),
        s[i] != 0,
    ensures
        limbs_value(s) > 0,
    decreases s.len(),
{
    lemma_weight_step((s.len() - 1) as nat);
    if i == s.len() - 1 {
        let w = weight((s.len() - 1) as nat);
        let last = s.last() as nat;
        assert(last * w > 0) by (nonlinear_arith)
            requires
                last > 0,
                w > 0,
        ;
    } else {
        lemma_nonzero_limb(s.drop_last(), i);
    }
}

/// 2 to the power `e`, for an exponent below 64.
pub fn pow2_u64(e: usize) -> (r: u64)
    requires
        e < 64,
    ensures
        r == pow2(e as nat),
{
    let mut r: u64 = 1;
    let mut j: usize = 0;
    proof {
        lemma2_to64();
        vstd::arithmetic::power2::lemma2_to64_rest();
    }
    while j < e
        invariant
            j <= e,
            e < 64,
            r == pow2(j as nat),
            pow2(63) == 0x8000_0000_0000_0000,
        decreases e - j,
    {
        proof {
            lemma_pow2_unfold((j + 1) as nat);
            if j + 1 < 63 {
                vstd::arithmetic::power2::lemma_pow2_strictly_increases((j + 1) as nat, 63);
            }
        }
        r = r * 2;
        j += 1;
    }
    r
}

} // verus!
