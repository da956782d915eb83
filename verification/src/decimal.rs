//! Numbers and decimal notation: reading a literal, and writing a number
//! with the fewest digits that still read back as the same number.

use vstd::prelude::*;
use vstd::arithmetic::power2::pow2;
use vstd::string::*;
use crate::bignat::BigNat;
use crate::number::{
    Number, round_ratio, sign_of, is_nan, is_infinite, is_finite, mantissa, exponent,
};
use crate::text::{decimal, digit_to_char, push_char};

verus! {

pub open spec fn pow10(k: nat) -> nat
    decreases k,
{
    if k == 0 {
        1
    } else {
        10 * pow10((k - 1) as nat)
    }
}

pub open spec fn pow5(k: nat) -> nat
    decreases k,
{
    if k == 0 {
        1
    } else {
        5 * pow5((k - 1) as nat)
    }
}

pub open spec fn is_digit(c: char) -> bool {
    '0' <= c && c <= '9'
}

pub open spec fn all_digits(s: Seq<char>) -> bool {
    forall|i: int| 0 <= i < s.len() ==> is_digit(#[trigger] s[i])
}

/// The digit that a character between '0' and '9' writes.
pub open spec fn digit_of(c: char) -> nat {
    (c as u32 - 48) as nat
}

/// The number that a sequence of decimal digits writes.
pub open spec fn digits_value(s: Seq<char>) -> nat
    decreases s.len(),
{
    if s.len() == 0 {
        0
    } else {
        digits_value(s.drop_last()) * 10 + digit_of(s.last())
    }
}

/// The bits of the double nearest to `d * 10^x`, negated if `neg`.
pub open spec fn decimal_scaled(neg: bool, d: nat, x: int) -> u64 {
    if x >= 0 {
        round_ratio(neg, d * pow10(x as nat), 1)
    } else {
        round_ratio(neg, d, pow10((-x) as nat))
    }
}

/// The bits of the number that a literal writes: the digits before the
/// decimal point, then those after it.
pub open spec fn literal_bits(int_part: Seq<char>, frac_part: Seq<char>) -> u64 {
    round_ratio(false, digits_value(int_part + frac_part), pow10(frac_part.len()))
}

/// The integer `w` with which a finite number is exactly
/// `w / 10^exact_places`.
pub open spec fn exact_scaled(bits: u64) -> nat {
    if exponent(bits) >= 0 {
        mantissa(bits) * pow2(exponent(bits) as nat)
    } else {
        mantissa(bits) * pow5((-exponent(bits)) as nat)
    }
}

pub open spec fn exact_places(bits: u64) -> nat {
    if exponent(bits) >= 0 {
        0
    } else {
        (-exponent(bits)) as nat
    }
}

/// Whether `d * 10^x`, read as a number with the sign of `bits`, is `bits`.
pub open spec fn round_trips(bits: u64, d: nat, x: int) -> bool {
    decimal_scaled(sign_of(bits), d, x) == bits
}

/// The digits with which a finite number that is not zero is written, and
/// the number of them that stand before the decimal point.
///
/// The exact decimal expansion is cut after `n` digits, for `n` from the
/// given one upward; the first cut that reads back as the number, itself
/// or with its last digit raised by one, is the result.  Where both read
/// back, the one nearer to the number is taken.
pub open spec fn shortest_from(bits: u64, n: nat) -> (Seq<char>, int)
    decreases decimal(exact_scaled(bits)).len() - n,
{
    let all = decimal(exact_scaled(bits));
    let point = all.len() - exact_places(bits);
    if n >= all.len() {
        (all, point)
    } else {
        let lo = digits_value(all.take(n as int));
        let x = all.len() - n - exact_places(bits);
        let lo_ok = round_trips(bits, lo, x);
        let hi_ok = round_trips(bits, lo + 1, x);
        if hi_ok && (!lo_ok || all[n as int] >= '5') {
            (decimal(lo + 1), x + decimal(lo + 1).len())
        } else if lo_ok {
            (all.take(n as int), point)
        } else {
            shortest_from(bits, n + 1)
        }
    }
}

/// The digits without zeros at their end; one digit always stays.
pub open spec fn strip_zeros(d: Seq<char>) -> Seq<char>
    decreases d.len(),
{
    if d.len() > 1 && d.last() == '0' {
        strip_zeros(d.drop_last())
    } else {
        d
    }
}

pub open spec fn zeros(k: nat) -> Seq<char> {
    Seq::new(k, |i: int| '0')
}

/// Positional notation, without an exponent, of the number whose digits
/// are `digits`, `point` of them standing before the decimal point.
pub open spec fn positional(neg: bool, digits: Seq<char>, point: int) -> Seq<char> {
    let body = if point <= 0 {
        seq!['0', '.'] + zeros((-point) as nat) + digits
    } else if point < digits.len() {
        digits.take(point).push('.') + digits.skip(point)
    } else {
        digits + zeros((point - digits.len()) as nat)
    };
    if neg {
        seq!['-'] + body
    } else {
        body
    }
}

/// How a number is written out in full: `NaN`, `inf`, `-inf`, or the
/// shortest decimal notation that reads back as the same number.
pub open spec fn display_text(bits: u64) -> Seq<char> {
    if is_nan(bits) {
        seq!['N', 'a', 'N']
    } else if is_infinite(bits) {
        if sign_of(bits) {
            seq!['-', 'i', 'n', 'f']
        } else {
            seq!['i', 'n', 'f']
        }
    } else if mantissa(bits) == 0 {
        if sign_of(bits) {
            seq!['-', '0']
        } else {
            seq!['0']
        }
    } else {
        let found = shortest_from(bits, 1);
        positional(sign_of(bits), strip_zeros(found.0), found.1)
    }
}

/// 10 to the power `k`.
pub fn pow10_big(k: usize) -> (r: BigNat)
    ensures
        r@ == pow10(k as nat),
{
    let mut r = BigNat::from_u64(1);
    let mut j: usize = 0;
    while j < k
        invariant
            j <= k,
            r@ == pow10(j as nat),
        decreases k - j,
    {
        r = r.mul_small(10);
        j += 1;
    }
    r
}

/// The number that the digits write.
pub fn digits_to_big(digits: &Vec<char>) -> (r: BigNat)
    requires
        all_digits(digits@),
    ensures
        r@ == digits_value(digits@),
{
    let mut r = BigNat::zero();
    let mut i: usize = 0;
    while i < digits.len()
        invariant
            i <= digits.len(),
            all_digits(digits@),
            r@ == digits_value(digits@.take(i as int)),
        decreases digits.len() - i,
    {
        let c = digits[i];
        assert(is_digit(digits@[i as int]));
        let d: u32 = c as u32 - 48;
        proof {
            assert(digits@.take(i + 1).drop_last() =~= digits@.take(i as int));
        }
        r = r.mul_small(10).add_small(d);
        i += 1;
    }
    assert(digits@.take(digits.len() as int) =~= digits@);
    r
}

/// The decimal digits of `w`, most significant first.
pub fn to_decimal(w: &BigNat) -> (out: Vec<char>)
    ensures
        out@ == decimal(w@),
        all_digits(out@),
{
    let mut rev: Vec<char> = Vec::new();
    let mut rest = w.copy();
    loop
        invariant_except_break
            decimal(w@) == decimal(rest@) + rev@.reverse(),
            all_digits(rev@),
        ensures
            decimal(w@) == rev@.reverse(),
            all_digits(rev@),
        decreases rest@,
    {
        let (q, r) = rest.divmod_small(10);
        let c = digit_to_char(r as u8);
        proof {
            vstd::arithmetic::div_mod::lemma_fundamental_div_mod_converse(
                rest@ as int,
                10,
                q@ as int,
                r as int,
            );
            let prev = rev@;
            assert(prev.push(c).reverse() =~= seq![c] + prev.reverse());
            if q@ != 0 {
                assert(decimal(rest@) == decimal(q@).push(c));
                assert(decimal(q@).push(c) + prev.reverse() =~= decimal(q@) + (seq![c]
                    + prev.reverse()));
            } else {
                assert(decimal(rest@) =~= seq![c]);
            }
            assert(is_digit(c));
        }
        rev.push(c);
        if q.is_zero() {
            break ;
        }
        rest = q;
    }
    let mut out: Vec<char> = Vec::new();
    let mut i: usize = rev.len();
    while i > 0
        invariant
            i <= rev.len(),
            out@ == rev@.reverse().take(rev.len() - i),
        decreases i,
    {
        i -= 1;
        out.push(rev[i]);
        proof {
            let r = rev@.reverse();
            let k = rev.len() - i - 1;
            assert(r.take(k + 1) =~= r.take(k).push(r[k]));
        }
    }
    proof {
        let r = rev@.reverse();
        assert(r.take(rev.len() as int) =~= r);
        assert forall|i: int| 0 <= i < out@.len() implies is_digit(#[trigger] out@[i]) by {
            assert(out@[i] == rev@[rev.len() - 1 - i]);
        }
    }
    out
}

impl Number {
    /// The double nearest to `d * 10^x`, negated if `neg`.
    pub fn from_scaled_decimal(neg: bool, d: &BigNat, x: i128) -> (n: Number)
        requires
            -0x10_0000 <= x <= usize::MAX,
        ensures
            n.bits == decimal_scaled(neg, d@, x as int),
    {
        if x >= 0 {
            let k: usize = x as usize;
            let mut p = d.copy();
            let mut j: usize = 0;
            proof {
                assert(d@ * 1 == d@);
            }
            while j < k
                invariant
                    j <= k,
                    p@ == d@ * pow10(j as nat),
                decreases k - j,
            {
                proof {
                    let t = pow10(j as nat);
                    assert((d@ * t) * 10 == d@ * (10 * t)) by (nonlinear_arith);
                }
                p = p.mul_small(10);
                j += 1;
            }
            Number::round_ratio(neg, &p, &BigNat::from_u64(1))
        } else {
            let q = pow10_big((-x) as usize);
            proof {
                lemma_pow10_pos((-x) as nat);
            }
            Number::round_ratio(neg, d, &q)
        }
    }

    /// The number that a literal writes, given the digits before and after
    /// its decimal point.
    pub fn parse_decimal(int_part: &Vec<char>, frac_part: &Vec<char>) -> (n: Number)
        requires
            all_digits(int_part@),
            all_digits(frac_part@),
        ensures
            n.bits == literal_bits(int_part@, frac_part@),
    {
        let mut all: Vec<char> = Vec::new();
        let mut i: usize = 0;
        while i < int_part.len()
            invariant
                i <= int_part.len(),
                all@ == int_part@.take(i as int),
            decreases int_part.len() - i,
        {
            all.push(int_part[i]);
            assert(int_part@.take(i + 1) =~= int_part@.take(i as int).push(int_part@[i as int]));
            i += 1;
        }
        assert(int_part@.take(int_part.len() as int) =~= int_part@);
        let mut j: usize = 0;
        while j < frac_part.len()
            invariant
                j <= frac_part.len(),
                all@ == int_part@ + frac_part@.take(j as int),
            decreases frac_part.len() - j,
        {
            all.push(frac_part[j]);
            assert(frac_part@.take(j + 1) =~= frac_part@.take(j as int).push(
                frac_part@[j as int],
            ));
            assert(int_part@ + frac_part@.take(j as int).push(frac_part@[j as int]) =~= (int_part@
                + frac_part@.take(j as int)).push(frac_part@[j as int]));
            j += 1;
        }
        assert(frac_part@.take(frac_part.len() as int) =~= frac_part@);
        let d = digits_to_big(&all);
        let q = pow10_big(frac_part.len());
        proof {
            lemma_pow10_pos(frac_part.len() as nat);
        }
        Number::round_ratio(false, &d, &q)
    }

    /// The integer of [`exact_scaled`].
    fn exact_scaled(&self) -> (w: BigNat)
        requires
            is_finite(self.bits),
        ensures
            w@ == exact_scaled(self.bits),
    {
        let m = BigNat::from_u64(self.mantissa());
        let e = self.exponent();
        if e >= 0 {
            m.shl(e as usize)
        } else {
            let k: usize = (-e) as usize;
            let mut w = m;
            let mut j: usize = 0;
            proof {
                assert(mantissa(self.bits) * 1 == mantissa(self.bits));
            }
            while j < k
                invariant
                    j <= k,
                    w@ == mantissa(self.bits) * pow5(j as nat),
                decreases k - j,
            {
                proof {
                    let mm = mantissa(self.bits);
                    let p = pow5(j as nat);
                    assert((mm * p) * 5 == mm * (5 * p)) by (nonlinear_arith);
                }
                w = w.mul_small(5);
                j += 1;
            }
            w
        }
    }

    /// The digits of [`shortest_from`], and how many of them stand before
    /// the decimal point.
    fn shortest_digits(&self) -> (r: (Vec<char>, i128))
        requires
            is_finite(self.bits),
        ensures
            (r.0@, r.1 as int) == shortest_from(self.bits, 1),
            all_digits(r.0@),
            r.0@.len() > 0,
            -0x10_0000 <= r.1 <= usize::MAX + 1,
    {
        let w = self.exact_scaled();
        let all = to_decimal(&w);
        let e = self.exponent();
        let places: i128 = if e >= 0 { 0 } else { -(e as i128) };
        let len: usize = all.len();
        let point: i128 = len as i128 - places;
        let neg = self.is_negative();
        proof {
            lemma_decimal_nonempty(w@);
        }
        let mut lo = BigNat::zero();
        let mut n: usize = 1;
        proof {
            assert(all@.take(0).len() == 0);
        }
        while n < len
            invariant
                1 <= n,
                len == all@.len(),
                len > 0,
                all@ == decimal(exact_scaled(self.bits)),
                all_digits(all@),
                places == exact_places(self.bits),
                0 <= places <= 1074,
                point == len - places,
                neg == sign_of(self.bits),
                lo@ == digits_value(all@.take(n - 1)),
                shortest_from(self.bits, 1) == shortest_from(self.bits, n as nat),
            decreases len - n,
        {
            let c = all[n - 1];
            assert(is_digit(all@[n - 1]));
            proof {
                assert(all@.take(n as int).drop_last() =~= all@.take(n - 1));
            }
            lo = lo.mul_small(10).add_small(c as u32 - 48);
            let x: i128 = len as i128 - n as i128 - places;
            let hi = lo.add_small(1);
            let lo_ok = Number::from_scaled_decimal(neg, &lo, x).bits == self.bits;
            let hi_ok = Number::from_scaled_decimal(neg, &hi, x).bits == self.bits;
            if hi_ok && (!lo_ok || all[n] >= '5') {
                let digits = to_decimal(&hi);
                proof {
                    lemma_decimal_nonempty(hi@);
                    lemma_decimal_len_bound(lo@, n as nat, all@.take(n as int));
                }
                let p: i128 = x + digits.len() as i128;
                return (digits, p);
            } else if lo_ok {
                let mut digits: Vec<char> = Vec::new();
                let mut i: usize = 0;
                while i < n
                    invariant
                        i <= n,
                        n < len,
                        len == all@.len(),
                        digits@ == all@.take(i as int),
                    decreases n - i,
                {
                    digits.push(all[i]);
                    assert(all@.take(i + 1) =~= all@.take(i as int).push(all@[i as int]));
                    i += 1;
                }
                return (digits, point);
            }
            n += 1;
        }
        (all, point)
    }

    /// Writes the number out in full.
    pub fn to_text(&self) -> (s: String)
        ensures
            s@ == display_text(self.bits),
    {
        let mut s = String::new();
        if self.is_nan() {
            push_char(&mut s, 'N');
            push_char(&mut s, 'a');
            push_char(&mut s, 'N');
            assert(s@ =~= seq!['N', 'a', 'N']);
            return s;
        }
        if self.is_negative() {
            push_char(&mut s, '-');
        }
        if self.is_infinite() {
            push_char(&mut s, 'i');
            push_char(&mut s, 'n');
            push_char(&mut s, 'f');
            assert(s@ =~= display_text(self.bits));
            return s;
        }
        if self.mantissa() == 0 {
            push_char(&mut s, '0');
            assert(s@ =~= display_text(self.bits));
            return s;
        }
        let (mut digits, point) = self.shortest_digits();
        let ghost found = digits@;
        while digits.len() > 1 && digits[digits.len() - 1] == '0'
            invariant
                digits@.len() > 0,
                strip_zeros(found) == strip_zeros(digits@),
            decreases digits.len(),
        {
            digits.pop();
        }
        let ghost sign = s@;
        let ghost stripped = digits@;
        assert(stripped == strip_zeros(found));
        let len: usize = digits.len();
        if point <= 0 {
            push_char(&mut s, '0');
            push_char(&mut s, '.');
            let mut z: i128 = point;
            while z < 0
                invariant
                    point <= z <= 0,
                    s@ == sign + seq!['0', '.'] + zeros((z - point) as nat),
                decreases -z,
            {
                push_char(&mut s, '0');
                assert(zeros((z + 1 - point) as nat) =~= zeros((z - point) as nat).push('0'));
                z += 1;
            }
            let mut i: usize = 0;
            while i < len
                invariant
                    i <= len,
                    len == digits@.len(),
                    s@ == sign + seq!['0', '.'] + zeros((-point) as nat) + digits@.take(i as int),
                decreases len - i,
            {
                push_char(&mut s, digits[i]);
                assert(digits@.take(i + 1) =~= digits@.take(i as int).push(digits@[i as int]));
                i += 1;
            }
            assert(digits@.take(len as int) =~= digits@);
        } else if point < len as i128 {
            let cut: usize = point as usize;
            let mut i: usize = 0;
            while i < cut
                invariant
                    i <= cut,
                    cut < len,
                    len == digits@.len(),
                    s@ == sign + digits@.take(i as int),
                decreases cut - i,
            {
                push_char(&mut s, digits[i]);
                assert(digits@.take(i + 1) =~= digits@.take(i as int).push(digits@[i as int]));
                i += 1;
            }
            push_char(&mut s, '.');
            while i < len
                invariant
                    cut <= i <= len,
                    len == digits@.len(),
                    s@ == sign + digits@.take(cut as int).push('.') + digits@.subrange(
                        cut as int,
                        i as int,
                    ),
                decreases len - i,
            {
                push_char(&mut s, digits[i]);
                assert(digits@.subrange(cut as int, i + 1) =~= digits@.subrange(
                    cut as int,
                    i as int,
                ).push(digits@[i as int]));
                i += 1;
            }
            assert(digits@.subrange(cut as int, len as int) =~= digits@.skip(cut as int));
        } else {
            let mut i: usize = 0;
            while i < len
                invariant
                    i <= len,
                    len == digits@.len(),
                    s@ == sign + digits@.take(i as int),
                decreases len - i,
            {
                push_char(&mut s, digits[i]);
                assert(digits@.take(i + 1) =~= digits@.take(i as int).push(digits@[i as int]));
                i += 1;
            }
            assert(digits@.take(len as int) =~= digits@);
            let mut z: i128 = len as i128;
            while z < point
                invariant
                    len <= z <= point,
                    s@ == sign + digits@ + zeros((z - len) as nat),
                decreases point - z,
            {
                push_char(&mut s, '0');
                assert(zeros((z + 1 - len) as nat) =~= zeros((z - len) as nat).push('0'));
                z += 1;
            }
        }
        proof {
            let body = positional(false, stripped, point as int);
            if sign_of(self.bits) {
                assert(sign =~= seq!['-']);
            } else {
                assert(sign =~= Seq::<char>::empty());
            }
            assert(s@ =~= sign + body);
            assert(s@ =~= positional(sign_of(self.bits), stripped, point as int));
        }
        s
    }
}

pub proof fn lemma_pow10_pos(k: nat)
    ensures
        pow10(k) > 0,
    decreases k,
{
    if k > 0 {
        lemma_pow10_pos((k - 1) as nat);
    }
}

pub proof fn lemma_decimal_nonempty(n: nat)
    ensures
        decimal(n).len() > 0,
    decreases n,
{
    if n >= 10 {
        lemma_decimal_nonempty(n / 10);
    }
}

/// Raising a number of `n` digits by one gives at most `n + 1` digits.
pub proof fn lemma_decimal_len_bound(v: nat, n: nat, digits: Seq<char>)
    requires
        digits.len() == n,
        all_digits(digits),
        v == digits_value(digits),
    ensures
        decimal(v + 1).len() <= n + 1,
{
    lemma_digits_value_bound(digits);
    lemma_pow10_pos(n);
    lemma_decimal_len(v + 1, n + 1);
}

pub proof fn lemma_digits_value_bound(digits: Seq<char>)
    requires
        all_digits(digits),
    ensures
        digits_value(digits) < pow10(digits.len()),
    decreases digits.len(),
{
    if digits.len() > 0 {
        lemma_digits_value_bound(digits.drop_last());
        assert(is_digit(digits.last()));
    }
}

/// A number below 10^k has at most `k` digits.
pub proof fn lemma_decimal_len(v: nat, k: nat)
    requires
        k >= 1,
        v < pow10(k),
    ensures
        decimal(v).len() <= k,
    decreases k,
{
    if v >= 10 {
        assert(pow10(1) == 10 * pow10(0));
        lemma_decimal_len(v / 10, (k - 1) as nat);
    }
}

} // verus!
