//! Numbers of the language: IEEE 754 double-precision values, held by their
//! 64 bits and computed with integer arithmetic alone.
//!
//! A finite number is `mantissa * 2^exponent`, negated when the sign bit is
//! set.  Every operation that rounds is defined through [`round_ratio`]: the
//! double nearest to a ratio of two natural numbers, ties going to the even
//! mantissa.

use vstd::prelude::*;
use vstd::std_specs::cmp::PartialEqSpecImpl;
use vstd::arithmetic::power2::{pow2, lemma_pow2_adds, lemma_pow2_pos, lemma2_to64, lemma_pow2_unfold, lemma_pow2_strictly_increases};
use crate::bignat::{BigNat, pow2_u64};

verus! {

/// 2^52: the weight of the exponent field, and the hidden bit of a normal mantissa.
pub const HIDDEN: u64 = 0x10_0000_0000_0000;

/// 2^63: the sign bit.
pub const SIGN: u64 = 0x8000_0000_0000_0000;

/// The bits of positive infinity.
pub const INFINITY_BITS: u64 = 0x7ff0_0000_0000_0000;

/// The bits of the one not-a-number value that operations produce.
pub const NAN_BITS: u64 = 0x7ff8_0000_0000_0000;

pub open spec fn sign_of(bits: u64) -> bool {
    bits >= SIGN
}

pub open spec fn exp_field(bits: u64) -> nat {
    ((bits / HIDDEN) % 0x800) as nat
}

pub open spec fn frac_field(bits: u64) -> nat {
    (bits % HIDDEN) as nat
}

pub open spec fn is_nan(bits: u64) -> bool {
    exp_field(bits) == 0x7ff && frac_field(bits) != 0
}

pub open spec fn is_infinite(bits: u64) -> bool {
    exp_field(bits) == 0x7ff && frac_field(bits) == 0
}

pub open spec fn is_finite(bits: u64) -> bool {
    exp_field(bits) < 0x7ff
}

/// The integer `m` of a finite number `m * 2^e`.
pub open spec fn mantissa(bits: u64) -> nat {
    if exp_field(bits) == 0 {
        frac_field(bits)
    } else {
        (HIDDEN + frac_field(bits)) as nat
    }
}

/// The exponent `e` of a finite number `m * 2^e`.
pub open spec fn exponent(bits: u64) -> int {
    if exp_field(bits) == 0 {
        -1074
    } else {
        exp_field(bits) - 1075
    }
}

/// The number of binary digits of `n`.
pub open spec fn bit_len(n: nat) -> nat
    decreases n,
{
    if n == 0 {
        0
    } else {
        1 + bit_len(n / 2)
    }
}

/// The integer `e` with `2^e <= p/q < 2^(e+1)`, for positive `p` and `q`.
pub open spec fn ratio_exp(p: nat, q: nat) -> int {
    let a = bit_len(p) - 1;
    let b = bit_len(q) - 1;
    if a >= b {
        if p >= q * pow2((a - b) as nat) {
            a - b
        } else {
            a - b - 1
        }
    } else {
        if p * pow2((b - a) as nat) >= q {
            a - b
        } else {
            a - b - 1
        }
    }
}

/// The exponent of the last mantissa bit of the double nearest to `p/q`.
pub open spec fn ulp_exp(p: nat, q: nat) -> int {
    let e = ratio_exp(p, q);
    if e - 52 < -1074 {
        -1074
    } else {
        e - 52
    }
}

pub open spec fn scaled_num(p: nat, u: int) -> nat {
    if u < 0 {
        p * pow2((-u) as nat)
    } else {
        p
    }
}

pub open spec fn scaled_den(q: nat, u: int) -> nat {
    if u > 0 {
        q * pow2(u as nat)
    } else {
        q
    }
}

/// The integer nearest to `n/d`; of two equally near ones, the even one.
pub open spec fn round_half_even(n: nat, d: nat) -> nat {
    let q = n / d;
    let r = n % d;
    if 2 * r > d || (2 * r == d && q % 2 == 1) {
        q + 1
    } else {
        q
    }
}

/// The bits of the number `m * 2^u` with the given sign, for `u >= -1074`
/// and `m <= 2^53`, where `m >= 2^52` unless `u == -1074`.  A number too
/// large for the format becomes infinity.
pub open spec fn pack(neg: bool, u: int, m: nat) -> u64 {
    let mag = (u + 1074) * HIDDEN + m;
    let mag = if mag >= INFINITY_BITS {
        INFINITY_BITS as int
    } else {
        mag
    };
    (if neg {
        SIGN + mag
    } else {
        mag
    }) as u64
}

/// The bits of the double nearest to `p/q`, negated if `neg`; ties go to
/// the even mantissa, and what lies beyond the largest double becomes infinity.
pub open spec fn round_ratio(neg: bool, p: nat, q: nat) -> u64 {
    if p == 0 {
        pack(neg, -1074, 0)
    } else {
        let u = ulp_exp(p, q);
        pack(neg, u, round_half_even(scaled_num(p, u), scaled_den(q, u)))
    }
}

/// The bits of the double nearest to `m * 2^e`, negated if `neg`.
pub open spec fn round_scaled(neg: bool, m: nat, e: int) -> u64 {
    if e >= 0 {
        round_ratio(neg, m * pow2(e as nat), 1)
    } else {
        round_ratio(neg, m, pow2((-e) as nat))
    }
}

pub proof fn lemma_pow2_le(a: nat, b: nat)
    requires
        a <= b,
    ensures
        pow2(a) <= pow2(b),
        pow2(a) > 0,
{
    lemma_pow2_pos(a);
    if a < b {
        lemma_pow2_strictly_increases(a, b);
    }
}

/// `bit_len(v)` is the `n` with `2^(n-1) <= v < 2^n`.
pub proof fn lemma_bit_len_unique(v: nat, n: nat)
    requires
        n > 0,
        pow2((n - 1) as nat) <= v < pow2(n),
    ensures
        bit_len(v) == n,
    decreases n,
{
    lemma2_to64();
    if n == 1 {
        assert(v == 1);
        assert(bit_len(1) == 1 + bit_len(0));
    } else {
        lemma_pow2_unfold(n);
        lemma_pow2_unfold((n - 1) as nat);
        lemma_pow2_pos((n - 2) as nat);
        lemma_bit_len_unique(v / 2, (n - 1) as nat);
    }
}

pub proof fn lemma_bit_len_bounds(v: nat)
    requires
        v > 0,
    ensures
        bit_len(v) > 0,
        pow2((bit_len(v) - 1) as nat) <= v < pow2(bit_len(v)),
    decreases v,
{
    lemma2_to64();
    if v == 1 {
        assert(bit_len(1) == 1 + bit_len(0));
    } else {
        lemma_bit_len_bounds(v / 2);
        lemma_pow2_unfold(bit_len(v));
        lemma_pow2_unfold(bit_len(v / 2));
    }
}

/// What [`ratio_exp`] computes: the power of two just below `p/q`.
pub proof fn lemma_ratio_exp_bounds(p: nat, q: nat)
    requires
        p > 0,
        q > 0,
    ensures
        ratio_exp(p, q) >= 0 ==> q * pow2(ratio_exp(p, q) as nat) <= p < q * pow2(
            (ratio_exp(p, q) + 1) as nat,
        ),
        ratio_exp(p, q) < 0 ==> q <= p * pow2((-ratio_exp(p, q)) as nat) && p * pow2(
            (-ratio_exp(p, q) - 1) as nat,
        ) < q,
{
    lemma_bit_len_bounds(p);
    lemma_bit_len_bounds(q);
    let a = (bit_len(p) - 1) as nat;
    let b = (bit_len(q) - 1) as nat;
    let pa = pow2(a);
    let pb = pow2(b);
    lemma_pow2_unfold(a + 1);
    lemma_pow2_unfold(b + 1);
    lemma2_to64();
    if a >= b {
        let k = (a - b) as nat;
        let pk = pow2(k);
        lemma_pow2_adds(b, k);
        lemma_pow2_pos(k);
        if p >= q * pk {
            lemma_pow2_unfold(k + 1);
            assert(p < q * (2 * pk)) by (nonlinear_arith)
                requires
                    p < 2 * (pb * pk),
                    pb <= q,
                    pk > 0,
            ;
        } else if k >= 1 {
            let pk1 = pow2((k - 1) as nat);
            lemma_pow2_unfold(k);
            lemma_pow2_pos((k - 1) as nat);
            assert(q * pk1 <= p) by (nonlinear_arith)
                requires
                    q < 2 * pb,
                    pb * (2 * pk1) <= p,
                    pk1 > 0,
            ;
        } else {
            assert(q * pk == q) by (nonlinear_arith)
                requires
                    pk == 1,
            ;
            assert(p * 2 >= q);
            assert(p * 1 == p);
        }
    } else {
        let k = (b - a) as nat;
        let pk = pow2(k);
        let pk1 = pow2((k - 1) as nat);
        lemma_pow2_adds(a, k);
        lemma_pow2_pos(k);
        lemma_pow2_unfold(k);
        lemma_pow2_unfold(k + 1);
        lemma_pow2_pos((k - 1) as nat);
        if p * pk >= q {
            assert(p * pk1 < q) by (nonlinear_arith)
                requires
                    p < 2 * pa,
                    pa * (2 * pk1) <= q,
                    pk1 > 0,
            ;
        } else {
            assert(q <= p * (2 * pk)) by (nonlinear_arith)
                requires
                    q < 2 * (pa * pk),
                    pa <= p,
                    pk > 0,
            ;
        }
    }
}

/// The quotient that [`round_ratio`] rounds has at most 53 bits.
pub proof fn lemma_scaled_bound(p: nat, q: nat)
    requires
        p > 0,
        q > 0,
    ensures
        scaled_num(p, ulp_exp(p, q)) < scaled_den(q, ulp_exp(p, q)) * pow2(53),
        scaled_den(q, ulp_exp(p, q)) > 0,
{
    lemma_ratio_exp_bounds(p, q);
    let e = ratio_exp(p, q);
    let u = ulp_exp(p, q);
    let two53 = pow2(53);
    if e >= 0 {
        let pe1 = pow2((e + 1) as nat);
        if u > 0 {
            let pu = pow2(u as nat);
            lemma_pow2_adds(u as nat, 53);
            lemma_pow2_pos(u as nat);
            assert(q * pe1 == (q * pu) * two53) by (nonlinear_arith)
                requires
                    pe1 == pu * two53,
            ;
            assert(q * pu > 0) by (nonlinear_arith)
                requires
                    q > 0,
                    pu > 0,
            ;
        } else if u == 0 {
        } else {
            let pu = pow2((-u) as nat);
            lemma_pow2_adds((e + 1) as nat, (-u) as nat);
            lemma_pow2_pos((-u) as nat);
            assert(p * pu < q * two53) by (nonlinear_arith)
                requires
                    p < q * pe1,
                    pe1 * pu == two53,
                    pu > 0,
            ;
        }
    } else {
        let pu = pow2((-u) as nat);
        let pf = pow2((52 - e) as nat);
        let pe1 = pow2((-e - 1) as nat);
        lemma_pow2_le((-u) as nat, (52 - e) as nat);
        lemma_pow2_adds((-e - 1) as nat, 53);
        lemma_pow2_pos(53);
        assert(p * pu < q * two53) by (nonlinear_arith)
            requires
                pu <= pf,
                pf == pe1 * two53,
                p * pe1 < q,
                two53 > 0,
                pu > 0,
        ;
    }
    lemma_pow2_pos(53);
}


pub open spec fn signed(neg: bool, n: nat) -> int {
    if neg {
        -(n as int)
    } else {
        n as int
    }
}

/// The smaller of the exponents of two finite numbers.
pub open spec fn min_exp(a: u64, b: u64) -> int {
    if exponent(a) <= exponent(b) {
        exponent(a)
    } else {
        exponent(b)
    }
}

/// The mantissa of a finite number when it is written with the exponent
/// `e0 <= exponent(bits)`: the number is `aligned(bits, e0) * 2^e0`.
pub open spec fn aligned(bits: u64, e0: int) -> nat {
    mantissa(bits) * pow2((exponent(bits) - e0) as nat)
}

pub open spec fn zero_bits(neg: bool) -> u64 {
    if neg {
        SIGN
    } else {
        0
    }
}

pub open spec fn infinity_bits(neg: bool) -> u64 {
    if neg {
        (SIGN + INFINITY_BITS) as u64
    } else {
        INFINITY_BITS
    }
}

/// The bits of `-x`.
pub open spec fn neg_spec(a: u64) -> u64 {
    if a >= SIGN {
        (a - SIGN) as u64
    } else {
        (a + SIGN) as u64
    }
}

/// The bits of the sum, rounded to nearest.
pub open spec fn add_spec(a: u64, b: u64) -> u64 {
    if is_nan(a) || is_nan(b) {
        NAN_BITS
    } else if is_infinite(a) {
        if is_infinite(b) && sign_of(a) != sign_of(b) {
            NAN_BITS
        } else {
            a
        }
    } else if is_infinite(b) {
        b
    } else {
        let e0 = min_exp(a, b);
        let total = signed(sign_of(a), aligned(a, e0)) + signed(sign_of(b), aligned(b, e0));
        if total == 0 {
            zero_bits(sign_of(a) && sign_of(b))
        } else if total < 0 {
            round_scaled(true, (-total) as nat, e0)
        } else {
            round_scaled(false, total as nat, e0)
        }
    }
}

pub open spec fn sub_spec(a: u64, b: u64) -> u64 {
    add_spec(a, neg_spec(b))
}

/// The bits of the product, rounded to nearest.
pub open spec fn mul_spec(a: u64, b: u64) -> u64 {
    let neg = sign_of(a) != sign_of(b);
    if is_nan(a) || is_nan(b) {
        NAN_BITS
    } else if is_infinite(a) || is_infinite(b) {
        if (is_finite(a) && mantissa(a) == 0) || (is_finite(b) && mantissa(b) == 0) {
            NAN_BITS
        } else {
            infinity_bits(neg)
        }
    } else {
        round_scaled(neg, mantissa(a) * mantissa(b), exponent(a) + exponent(b))
    }
}

/// The bits of the quotient, rounded to nearest.
pub open spec fn div_spec(a: u64, b: u64) -> u64 {
    let neg = sign_of(a) != sign_of(b);
    if is_nan(a) || is_nan(b) {
        NAN_BITS
    } else if is_infinite(a) {
        if is_infinite(b) {
            NAN_BITS
        } else {
            infinity_bits(neg)
        }
    } else if is_infinite(b) {
        zero_bits(neg)
    } else if mantissa(b) == 0 {
        if mantissa(a) == 0 {
            NAN_BITS
        } else {
            infinity_bits(neg)
        }
    } else {
        let e0 = min_exp(a, b);
        round_ratio(neg, aligned(a, e0), aligned(b, e0))
    }
}

/// The bits of the remainder of the division that truncates its quotient;
/// it is exact and has the sign of the dividend.
pub open spec fn rem_spec(a: u64, b: u64) -> u64 {
    if is_nan(a) || is_nan(b) || is_infinite(a) {
        NAN_BITS
    } else if is_infinite(b) {
        a
    } else if mantissa(b) == 0 {
        NAN_BITS
    } else {
        let e0 = min_exp(a, b);
        round_scaled(sign_of(a), aligned(a, e0) % aligned(b, e0), e0)
    }
}

/// The size of a number that is not NaN, in units of 2^-1074; infinity
/// counts as 2^2100, above every finite number.
pub open spec fn magnitude(bits: u64) -> nat {
    if exp_field(bits) == 0x7ff {
        pow2(2100)
    } else {
        mantissa(bits) * pow2((exponent(bits) + 1074) as nat)
    }
}

/// The place of a number that is not NaN in the order of the numbers.
pub open spec fn order_key(bits: u64) -> int {
    signed(sign_of(bits), magnitude(bits))
}

pub open spec fn lt_spec(a: u64, b: u64) -> bool {
    !is_nan(a) && !is_nan(b) && order_key(a) < order_key(b)
}

pub open spec fn le_spec(a: u64, b: u64) -> bool {
    !is_nan(a) && !is_nan(b) && order_key(a) <= order_key(b)
}

pub open spec fn eq_spec(a: u64, b: u64) -> bool {
    !is_nan(a) && !is_nan(b) && order_key(a) == order_key(b)
}

/// Whether the number is zero of either sign.
pub open spec fn is_zero(bits: u64) -> bool {
    is_finite(bits) && mantissa(bits) == 0
}

/// The integer part of the size of a finite number.
pub open spec fn trunc_magnitude(bits: u64) -> nat {
    if exponent(bits) >= 0 {
        mantissa(bits) * pow2(exponent(bits) as nat)
    } else {
        mantissa(bits) / pow2((-exponent(bits)) as nat)
    }
}

/// Whether the number is finite and has no fractional part.
pub open spec fn integral(bits: u64) -> bool {
    is_finite(bits) && (exponent(bits) >= 0 || mantissa(bits) % pow2((-exponent(bits)) as nat)
        == 0)
}

/// The integer that a finite number without fractional part is.
pub open spec fn int_value(bits: u64) -> int {
    signed(sign_of(bits), trunc_magnitude(bits))
}

/// Conversion to an index: truncated toward zero, negative numbers and NaN
/// give 0, and what is too large gives the largest index.
pub open spec fn to_usize_spec(bits: u64) -> usize {
    if is_nan(bits) || sign_of(bits) {
        0
    } else if is_infinite(bits) || trunc_magnitude(bits) > usize::MAX {
        usize::MAX
    } else {
        trunc_magnitude(bits) as usize
    }
}

/// Conversion to a 64-bit integer: truncated toward zero, NaN gives 0,
/// and what is out of range gives the nearest bound.
pub open spec fn to_i64_spec(bits: u64) -> i64 {
    if is_nan(bits) {
        0
    } else if is_infinite(bits) || trunc_magnitude(bits) >= 0x8000_0000_0000_0000 {
        if sign_of(bits) {
            i64::MIN
        } else {
            i64::MAX
        }
    } else {
        int_value(bits) as i64
    }
}

/// The bits of the double nearest to an integer.
pub open spec fn from_int_spec(i: int) -> u64 {
    if i < 0 {
        round_scaled(true, (-i) as nat, 0)
    } else {
        round_scaled(false, i as nat, 0)
    }
}

/// A number of the language.
#[derive(Clone, Copy, Debug)]
pub struct Number {
    pub bits: u64,
}

impl PartialEq for Number {
    /// Equality of numbers: the zeros of both signs are equal, and a NaN
    /// is equal to nothing.
    fn eq(&self, other: &Number) -> (b: bool) {
        self.num_eq(*other)
    }
}

impl PartialEqSpecImpl for Number {
    open spec fn obeys_eq_spec() -> bool {
        true
    }

    open spec fn eq_spec(&self, other: &Number) -> bool {
        crate::number::eq_spec(self.bits, other.bits)
    }
}

impl Number {
    pub fn from_bits(bits: u64) -> (n: Number)
        ensures
            n.bits == bits,
    {
        Number { bits }
    }

    pub fn to_bits(&self) -> (bits: u64)
        ensures
            bits == self.bits,
    {
        self.bits
    }

    pub fn is_negative(&self) -> (b: bool)
        ensures
            b == sign_of(self.bits),
    {
        self.bits >= SIGN
    }

    pub fn exp_bits(&self) -> (e: u64)
        ensures
            e == exp_field(self.bits),
            e <= 0x7ff,
    {
        (self.bits / HIDDEN) % 0x800
    }

    pub fn frac_bits(&self) -> (f: u64)
        ensures
            f == frac_field(self.bits),
            f < HIDDEN,
    {
        self.bits % HIDDEN
    }

    pub fn is_nan(&self) -> (b: bool)
        ensures
            b == is_nan(self.bits),
    {
        self.exp_bits() == 0x7ff && self.frac_bits() != 0
    }

    pub fn is_infinite(&self) -> (b: bool)
        ensures
            b == is_infinite(self.bits),
    {
        self.exp_bits() == 0x7ff && self.frac_bits() == 0
    }

    pub fn is_finite(&self) -> (b: bool)
        ensures
            b == is_finite(self.bits),
    {
        self.exp_bits() < 0x7ff
    }

    /// The mantissa of a finite number.
    pub fn mantissa(&self) -> (m: u64)
        ensures
            m == mantissa(self.bits),
            m < 2 * HIDDEN,
    {
        if self.exp_bits() == 0 {
            self.frac_bits()
        } else {
            HIDDEN + self.frac_bits()
        }
    }

    /// The exponent of a finite number.
    pub fn exponent(&self) -> (e: i64)
        ensures
            e == exponent(self.bits),
            -1074 <= e <= 972,
    {
        if self.exp_bits() == 0 {
            -1074
        } else {
            self.exp_bits() as i64 - 1075
        }
    }

    pub fn nan() -> (n: Number)
        ensures
            n.bits == NAN_BITS,
            is_nan(n.bits),
    {
        Number { bits: NAN_BITS }
    }

    pub fn infinity(neg: bool) -> (n: Number)
        ensures
            n.bits == (if neg { (SIGN + INFINITY_BITS) as u64 } else { INFINITY_BITS }),
    {
        if neg {
            Number { bits: SIGN + INFINITY_BITS }
        } else {
            Number { bits: INFINITY_BITS }
        }
    }

    pub fn zero(neg: bool) -> (n: Number)
        ensures
            n.bits == pack(neg, -1074, 0),
    {
        if neg {
            Number { bits: SIGN }
        } else {
            Number { bits: 0 }
        }
    }

    /// Assembles the bits of `m * 2^(biased - 1074)`.
    fn assemble(neg: bool, biased: u64, m: u64) -> (n: Number)
        requires
            biased <= 2047,
            m <= 2 * HIDDEN,
        ensures
            n.bits == pack(neg, biased - 1074, m as nat),
    {
        assert(biased * HIDDEN <= 2047 * HIDDEN) by (nonlinear_arith)
            requires
                biased <= 2047,
        ;
        let raw: u64 = biased * HIDDEN + m;
        let mag: u64 = if raw >= INFINITY_BITS { INFINITY_BITS } else { raw };
        if neg {
            Number { bits: SIGN + mag }
        } else {
            Number { bits: mag }
        }
    }

    /// The double nearest to `p/q`, negated if `neg`.
    pub fn round_ratio(neg: bool, p: &BigNat, q: &BigNat) -> (n: Number)
        requires
            q@ > 0,
        ensures
            n.bits == round_ratio(neg, p@, q@),
    {
        if p.is_zero() {
            return Number::zero(neg);
        }
        let lp: u128 = p.bit_length();
        let lq: u128 = q.bit_length();
        proof {
            lemma_bit_len_unique(p@, lp as nat);
            lemma_bit_len_unique(q@, lq as nat);
        }
        if lp > lq + 1100 {
            proof {
                let u = ulp_exp(p@, q@);
                let m = round_half_even(scaled_num(p@, u), scaled_den(q@, u));
                assert(u >= 1047);
                assert((u + 1074) * HIDDEN + m >= INFINITY_BITS) by (nonlinear_arith)
                    requires
                        u >= 1047,
                        m >= 0,
                        HIDDEN == 0x10_0000_0000_0000,
                        INFINITY_BITS == 0x7ff0_0000_0000_0000,
                ;
            }
            return Number::infinity(neg);
        }
        if lq > lp + 1200 {
            proof {
                let u = ulp_exp(p@, q@);
                assert(u == -1074);
                let n = scaled_num(p@, u);
                let d = scaled_den(q@, u);
                assert(d == q@);
                let w = pow2(1074);
                lemma_pow2_adds(lp as nat, 1075);
                lemma_pow2_le((lp + 1075) as nat, (lq - 1) as nat);
                lemma_pow2_unfold(1075);
                lemma_pow2_pos(1074);
                assert(2 * (p@ * w) < q@) by (nonlinear_arith)
                    requires
                        p@ < pow2(lp as nat),
                        pow2(lp as nat) * (2 * w) <= q@,
                        w > 0,
                ;
                vstd::arithmetic::div_mod::lemma_small_mod(n, d);
                vstd::arithmetic::div_mod::lemma_basic_div(n as int, d as int);
            }
            return Number::zero(neg);
        }
        let e: i64 = if lp >= lq {
            let k: usize = (lp - lq) as usize;
            let t = q.shl(k);
            if t.le(p) {
                k as i64
            } else {
                k as i64 - 1
            }
        } else {
            let k: usize = (lq - lp) as usize;
            let t = p.shl(k);
            if q.le(&t) {
                -(k as i64)
            } else {
                -(k as i64) - 1
            }
        };
        assert(e == ratio_exp(p@, q@));
        let u: i64 = if e - 52 < -1074 { -1074 } else { e - 52 };
        if u > 973 {
            proof {
                let m = round_half_even(scaled_num(p@, u as int), scaled_den(q@, u as int));
                assert((u + 1074) * HIDDEN + m >= INFINITY_BITS) by (nonlinear_arith)
                    requires
                        u >= 973,
                        m >= 0,
                        HIDDEN == 0x10_0000_0000_0000,
                        INFINITY_BITS == 0x7ff0_0000_0000_0000,
                ;
            }
            return Number::infinity(neg);
        }
        let num = if u < 0 { p.shl((-u) as usize) } else { p.copy() };
        let den = if u > 0 { q.shl(u as usize) } else { q.copy() };
        proof {
            lemma_scaled_bound(p@, q@);
        }
        let (m0, rem) = num.div_rem_bounded(&den, 53);
        let twice = rem.add(&rem);
        let up = den.lt(&twice) || (twice.eq(&den) && m0 % 2 == 1);
        proof {
            lemma_pow2_pos(53);
            lemma2_to64();
            vstd::arithmetic::power2::lemma2_to64_rest();
            assert(m0 * den@ == den@ * m0) by (nonlinear_arith);
            vstd::arithmetic::div_mod::lemma_fundamental_div_mod_converse(
                num@ as int,
                den@ as int,
                m0 as int,
                rem@ as int,
            );
            assert(m0 < pow2(53)) by (nonlinear_arith)
                requires
                    num@ == m0 * den@ + rem@,
                    num@ < den@ * pow2(53),
                    den@ > 0,
            ;
        }
        let m: u64 = if up { m0 + 1 } else { m0 };
        Number::assemble(neg, (u + 1074) as u64, m)
    }

    /// The double nearest to `m * 2^e`, negated if `neg`.
    pub fn round_scaled(neg: bool, m: &BigNat, e: i64) -> (n: Number)
        requires
            -0x10_0000 <= e <= 0x10_0000,
        ensures
            n.bits == round_scaled(neg, m@, e as int),
    {
        if e >= 0 {
            let p = m.shl(e as usize);
            let q = BigNat::from_u64(1);
            Number::round_ratio(neg, &p, &q)
        } else {
            let q = BigNat::from_u64(1).shl((-e) as usize);
            proof {
                lemma_pow2_pos((-e) as nat);
                assert(1 * pow2((-e) as nat) == pow2((-e) as nat));
            }
            Number::round_ratio(neg, m, &q)
        }
    }

    /// The mantissa of a finite number, written with the exponent `e0`.
    fn aligned(&self, e0: i64) -> (r: BigNat)
        requires
            is_finite(self.bits),
            -1074 <= e0 <= exponent(self.bits),
        ensures
            r@ == aligned(self.bits, e0 as int),
    {
        let m = BigNat::from_u64(self.mantissa());
        m.shl((self.exponent() - e0) as usize)
    }

    pub fn neg(self) -> (r: Number)
        ensures
            r.bits == neg_spec(self.bits),
    {
        if self.bits >= SIGN {
            Number { bits: self.bits - SIGN }
        } else {
            Number { bits: self.bits + SIGN }
        }
    }

    pub fn add(self, other: Number) -> (r: Number)
        ensures
            r.bits == add_spec(self.bits, other.bits),
    {
        if self.is_nan() || other.is_nan() {
            return Number::nan();
        }
        if self.is_infinite() {
            if other.is_infinite() && self.is_negative() != other.is_negative() {
                return Number::nan();
            }
            return self;
        }
        if other.is_infinite() {
            return other;
        }
        let ea = self.exponent();
        let eb = other.exponent();
        let e0: i64 = if ea <= eb { ea } else { eb };
        let x = self.aligned(e0);
        let y = other.aligned(e0);
        let sa = self.is_negative();
        let sb = other.is_negative();
        if sa == sb {
            let t = x.add(&y);
            if t.is_zero() {
                Number::zero(sa)
            } else {
                Number::round_scaled(sa, &t, e0)
            }
        } else {
            match x.checked_sub(&y) {
                Some(d) => {
                    if d.is_zero() {
                        Number::zero(false)
                    } else {
                        Number::round_scaled(sa, &d, e0)
                    }
                },
                None => {
                    let d = y.checked_sub(&x).unwrap();
                    Number::round_scaled(sb, &d, e0)
                },
            }
        }
    }

    pub fn sub(self, other: Number) -> (r: Number)
        ensures
            r.bits == sub_spec(self.bits, other.bits),
    {
        self.add(other.neg())
    }

    pub fn mul(self, other: Number) -> (r: Number)
        ensures
            r.bits == mul_spec(self.bits, other.bits),
    {
        let neg = self.is_negative() != other.is_negative();
        if self.is_nan() || other.is_nan() {
            return Number::nan();
        }
        if self.is_infinite() || other.is_infinite() {
            if (self.is_finite() && self.mantissa() == 0) || (other.is_finite()
                && other.mantissa() == 0) {
                return Number::nan();
            }
            return Number::infinity(neg);
        }
        let ma = self.mantissa();
        let mb = other.mantissa();
        assert((ma as u128) * (mb as u128) <= 0x20_0000_0000_0000 * 0x20_0000_0000_0000)
            by (nonlinear_arith)
            requires
                ma <= 0x20_0000_0000_0000,
                mb <= 0x20_0000_0000_0000,
        ;
        let prod: u128 = (ma as u128) * (mb as u128);
        let hi: u64 = (prod / 0x1_0000_0000_0000_0000) as u64;
        let lo: u64 = (prod % 0x1_0000_0000_0000_0000) as u64;
        let p = BigNat::from_u64(hi).shl(64).add(&BigNat::from_u64(lo));
        proof {
            lemma2_to64();
        }
        Number::round_scaled(neg, &p, self.exponent() + other.exponent())
    }

    pub fn div(self, other: Number) -> (r: Number)
        ensures
            r.bits == div_spec(self.bits, other.bits),
    {
        let neg = self.is_negative() != other.is_negative();
        if self.is_nan() || other.is_nan() {
            return Number::nan();
        }
        if self.is_infinite() {
            if other.is_infinite() {
                return Number::nan();
            }
            return Number::infinity(neg);
        }
        if other.is_infinite() {
            return Number::zero(neg);
        }
        if other.mantissa() == 0 {
            if self.mantissa() == 0 {
                return Number::nan();
            }
            return Number::infinity(neg);
        }
        let ea = self.exponent();
        let eb = other.exponent();
        let e0: i64 = if ea <= eb { ea } else { eb };
        let x = self.aligned(e0);
        let y = other.aligned(e0);
        proof {
            lemma_pow2_pos((eb - e0) as nat);
            assert(aligned(other.bits, e0 as int) > 0) by (nonlinear_arith)
                requires
                    aligned(other.bits, e0 as int) == mantissa(other.bits) * pow2(
                        (eb - e0) as nat,
                    ),
                    mantissa(other.bits) > 0,
                    pow2((eb - e0) as nat) > 0,
            ;
        }
        Number::round_ratio(neg, &x, &y)
    }

    pub fn rem(self, other: Number) -> (r: Number)
        ensures
            r.bits == rem_spec(self.bits, other.bits),
    {
        if self.is_nan() || other.is_nan() || self.is_infinite() {
            return Number::nan();
        }
        if other.is_infinite() {
            return self;
        }
        let ma = self.mantissa();
        let mb = other.mantissa();
        if mb == 0 {
            return Number::nan();
        }
        let ea = self.exponent();
        let eb = other.exponent();
        let neg = self.is_negative();
        if ea >= eb {
            let k: usize = (ea - eb) as usize;
            let mut r: u64 = ma % mb;
            let mut j: usize = 0;
            proof {
                lemma2_to64();
                assert(ma * 1 == ma);
            }
            while j < k
                invariant
                    j <= k,
                    mb > 0,
                    mb < 2 * HIDDEN,
                    r < mb,
                    r == ((ma as nat) * pow2(j as nat)) % (mb as nat),
                decreases k - j,
            {
                proof {
                    let x = (ma * pow2(j as nat)) as int;
                    lemma_pow2_unfold((j + 1) as nat);
                    vstd::arithmetic::div_mod::lemma_mul_mod_noop_left(x, 2, mb as int);
                    assert(ma * pow2((j + 1) as nat) == x * 2) by (nonlinear_arith)
                        requires
                            pow2((j + 1) as nat) == 2 * pow2(j as nat),
                            x == ma * pow2(j as nat),
                    ;
                }
                r = (r * 2) % mb;
                j += 1;
            }
            proof {
                lemma2_to64();
                assert(mb * 1 == mb);
                assert(aligned(other.bits, eb as int) == mb);
            }
            Number::round_scaled(neg, &BigNat::from_u64(r), eb)
        } else {
            let k: usize = (eb - ea) as usize;
            proof {
                lemma2_to64();
                assert(ma * 1 == ma);
                assert(aligned(self.bits, ea as int) == ma);
            }
            if k >= 53 {
                proof {
                    vstd::arithmetic::power2::lemma2_to64_rest();
                    lemma_pow2_le(53, k as nat);
                    assert(ma < mb * pow2(k as nat)) by (nonlinear_arith)
                        requires
                            ma < pow2(53),
                            pow2(53) <= pow2(k as nat),
                            mb >= 1,
                    ;
                    vstd::arithmetic::div_mod::lemma_small_mod(
                        ma as nat,
                        aligned(other.bits, ea as int),
                    );
                }
                Number::round_scaled(neg, &BigNat::from_u64(ma), ea)
            } else {
                let f: u64 = pow2_u64(k);
                proof {
                    vstd::arithmetic::power2::lemma2_to64_rest();
                    lemma_pow2_le(k as nat, 52);
                    lemma_pow2_pos(k as nat);
                }
                assert((mb as u128) * (f as u128) <= 0x20_0000_0000_0000 * 0x10_0000_0000_0000
                    && (mb as u128) * (f as u128) > 0) by (nonlinear_arith)
                    requires
                        0 < mb <= 0x20_0000_0000_0000,
                        0 < f <= 0x10_0000_0000_0000,
                ;
                let y: u128 = (mb as u128) * (f as u128);
                proof {
                    vstd::arithmetic::div_mod::lemma_mod_decreases(ma as nat, y as nat);
                    assert(y == aligned(other.bits, ea as int));
                }
                let r: u64 = ((ma as u128) % y) as u64;
                Number::round_scaled(neg, &BigNat::from_u64(r), ea)
            }
        }
    }

    /// The size of a number that is not NaN, in units of 2^-1074.
    fn magnitude(&self) -> (r: BigNat)
        ensures
            r@ == magnitude(self.bits),
    {
        if self.exp_bits() == 0x7ff {
            let r = BigNat::from_u64(1).shl(2100);
            assert(1 * pow2(2100) == pow2(2100));
            r
        } else {
            BigNat::from_u64(self.mantissa()).shl((self.exponent() + 1074) as usize)
        }
    }

    /// `self < other` as numbers; false when either is NaN.
    pub fn lt(self, other: Number) -> (b: bool)
        ensures
            b == lt_spec(self.bits, other.bits),
    {
        if self.is_nan() || other.is_nan() {
            return false;
        }
        let x = self.magnitude();
        let y = other.magnitude();
        if self.is_negative() {
            if other.is_negative() {
                y.lt(&x)
            } else {
                !(x.is_zero() && y.is_zero())
            }
        } else {
            if other.is_negative() {
                false
            } else {
                x.lt(&y)
            }
        }
    }

    /// `self <= other` as numbers; false when either is NaN.
    pub fn le(self, other: Number) -> (b: bool)
        ensures
            b == le_spec(self.bits, other.bits),
    {
        if self.is_nan() || other.is_nan() {
            return false;
        }
        let x = self.magnitude();
        let y = other.magnitude();
        if self.is_negative() {
            if other.is_negative() {
                y.le(&x)
            } else {
                true
            }
        } else {
            if other.is_negative() {
                x.is_zero() && y.is_zero()
            } else {
                x.le(&y)
            }
        }
    }

    /// Equality as numbers: NaN equals nothing, and the two zeros are equal.
    pub fn num_eq(self, other: Number) -> (b: bool)
        ensures
            b == eq_spec(self.bits, other.bits),
    {
        if self.is_nan() || other.is_nan() {
            return false;
        }
        let x = self.magnitude();
        let y = other.magnitude();
        if self.is_negative() == other.is_negative() {
            x.eq(&y)
        } else {
            x.is_zero() && y.is_zero()
        }
    }

    pub fn is_zero(&self) -> (b: bool)
        ensures
            b == is_zero(self.bits),
    {
        self.is_finite() && self.mantissa() == 0
    }

    /// The integer part of the size of a finite number, or the largest
    /// `u64` if it is larger than that.
    fn trunc_u64(&self) -> (r: u64)
        requires
            is_finite(self.bits),
        ensures
            trunc_magnitude(self.bits) <= u64::MAX ==> r == trunc_magnitude(self.bits),
            trunc_magnitude(self.bits) > u64::MAX ==> r == u64::MAX,
    {
        let m = self.mantissa();
        let e = self.exponent();
        proof {
            lemma2_to64();
            vstd::arithmetic::power2::lemma2_to64_rest();
        }
        if e >= 0 {
            if m == 0 {
                assert(0 * pow2(e as nat) == 0);
                0
            } else if e >= 64 {
                proof {
                    lemma_pow2_le(64, e as nat);
                    assert(m * pow2(e as nat) >= pow2(64)) by (nonlinear_arith)
                        requires
                            m >= 1,
                            pow2(e as nat) >= pow2(64),
                    ;
                }
                u64::MAX
            } else {
                let f: u64 = pow2_u64(e as usize);
                assert((m as u128) * (f as u128) <= 0x20_0000_0000_0000 * 0x8000_0000_0000_0000)
                    by (nonlinear_arith)
                    requires
                        m <= 0x20_0000_0000_0000,
                        f <= 0x8000_0000_0000_0000,
                ;
                proof {
                    lemma_pow2_le(e as nat, 63);
                }
                let wide: u128 = (m as u128) * (f as u128);
                if wide > u64::MAX as u128 {
                    u64::MAX
                } else {
                    wide as u64
                }
            }
        } else {
            let k: i64 = -e;
            if k >= 64 {
                proof {
                    lemma_pow2_le(64, k as nat);
                    vstd::arithmetic::div_mod::lemma_basic_div(m as int, pow2(k as nat) as int);
                }
                0
            } else {
                let f: u64 = pow2_u64(k as usize);
                proof {
                    lemma_pow2_pos(k as nat);
                }
                m / f
            }
        }
    }

    /// Whether the number is finite and has no fractional part.
    pub fn is_integral(&self) -> (b: bool)
        ensures
            b == integral(self.bits),
    {
        if !self.is_finite() {
            return false;
        }
        let m = self.mantissa();
        let e = self.exponent();
        if e >= 0 {
            true
        } else {
            let k: i64 = -e;
            proof {
                lemma2_to64();
                vstd::arithmetic::power2::lemma2_to64_rest();
                lemma_pow2_pos(k as nat);
            }
            if k >= 64 {
                proof {
                    lemma_pow2_le(64, k as nat);
                    vstd::arithmetic::div_mod::lemma_small_mod(m as nat, pow2(k as nat));
                }
                m == 0
            } else {
                let f: u64 = pow2_u64(k as usize);
                m % f == 0
            }
        }
    }

    pub fn to_usize(&self) -> (r: usize)
        ensures
            r == to_usize_spec(self.bits),
    {
        if self.is_nan() || self.is_negative() {
            0
        } else if self.is_infinite() {
            usize::MAX
        } else {
            let t = self.trunc_u64();
            if t > usize::MAX as u64 {
                usize::MAX
            } else {
                t as usize
            }
        }
    }

    pub fn to_i64(&self) -> (r: i64)
        ensures
            r == to_i64_spec(self.bits),
    {
        if self.is_nan() {
            0
        } else if self.is_infinite() {
            if self.is_negative() { i64::MIN } else { i64::MAX }
        } else {
            let t = self.trunc_u64();
            if t >= 0x8000_0000_0000_0000 {
                if self.is_negative() { i64::MIN } else { i64::MAX }
            } else if self.is_negative() {
                -(t as i64)
            } else {
                t as i64
            }
        }
    }

    /// The double nearest to `n`.
    pub fn from_u64(n: u64) -> (r: Number)
        ensures
            r.bits == from_int_spec(n as int),
    {
        Number::round_scaled(false, &BigNat::from_u64(n), 0)
    }

    pub fn from_usize(n: usize) -> (r: Number)
        ensures
            r.bits == from_int_spec(n as int),
    {
        Number::from_u64(n as u64)
    }

    /// The double nearest to `i`.
    pub fn from_i64(i: i64) -> (r: Number)
        ensures
            r.bits == from_int_spec(i as int),
    {
        if i < 0 {
            let m: u64 = (-(i + 1)) as u64 + 1;
            Number::round_scaled(true, &BigNat::from_u64(m), 0)
        } else {
            Number::round_scaled(false, &BigNat::from_u64(i as u64), 0)
        }
    }
}

} // verus!
