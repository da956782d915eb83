//! Laws of rounding: the result depends on the ratio alone, and small
//! integers are held exactly.

use vstd::prelude::*;
use vstd::arithmetic::power2::{pow2, lemma_pow2_adds, lemma_pow2_pos, lemma2_to64, lemma_pow2_unfold};
use vstd::arithmetic::div_mod::{lemma_fundamental_div_mod_converse, lemma_fundamental_div_mod};
use crate::number::{
    HIDDEN,
    INFINITY_BITS,
    aligned,
    add_spec,
    bit_len,
    exp_field,
    exponent,
    frac_field,
    from_int_spec,
    int_value,
    integral,
    is_finite,
    lemma_bit_len_bounds,
    lemma_bit_len_unique,
    lemma_pow2_le,
    lemma_ratio_exp_bounds,
    mantissa,
    min_exp,
    ratio_exp,
    round_half_even,
    round_ratio,
    round_scaled,
    scaled_den,
    scaled_num,
    sign_of,
    signed,
    trunc_magnitude,
    ulp_exp,
};

verus! {

/// Whether `p/q` lies between 2^e and 2^(e+1), the first included.
pub open spec fn in_binade(p: nat, q: nat, e: int) -> bool {
    if e >= 0 {
        q * pow2(e as nat) <= p < q * pow2((e + 1) as nat)
    } else {
        q <= p * pow2((-e) as nat) && p * pow2((-e - 1) as nat) < q
    }
}

/// Only one power of two lies just below a ratio: it is what
/// [`ratio_exp`] gives.
pub proof fn lemma_ratio_exp_unique(p: nat, q: nat, e: int)
    requires
        p > 0,
        q > 0,
        in_binade(p, q, e),
    ensures
        ratio_exp(p, q) == e,
{
    lemma_ratio_exp_bounds(p, q);
    let f = ratio_exp(p, q);
    assert(in_binade(p, q, f));
    if e < f {
        lemma_binades_apart(p, q, e, f);
    } else if f < e {
        lemma_binades_apart(p, q, f, e);
    }
}

proof fn lemma_binades_apart(p: nat, q: nat, e1: int, e2: int)
    requires
        p > 0,
        q > 0,
        e1 < e2,
        in_binade(p, q, e1),
    ensures
        !in_binade(p, q, e2),
{
    if e1 >= 0 {
        lemma_pow2_le((e1 + 1) as nat, e2 as nat);
        assert(q * pow2((e1 + 1) as nat) <= q * pow2(e2 as nat)) by (nonlinear_arith)
            requires
                pow2((e1 + 1) as nat) <= pow2(e2 as nat),
        ;
    } else if e2 < 0 {
        lemma_pow2_le((-e2) as nat, (-e1 - 1) as nat);
        assert(p * pow2((-e2) as nat) <= p * pow2((-e1 - 1) as nat)) by (nonlinear_arith)
            requires
                pow2((-e2) as nat) <= pow2((-e1 - 1) as nat),
        ;
    } else {
        lemma_pow2_pos(e2 as nat);
        lemma_pow2_pos((-e1 - 1) as nat);
        assert(q <= q * pow2(e2 as nat)) by (nonlinear_arith)
            requires
                pow2(e2 as nat) >= 1,
        ;
        assert(p <= p * pow2((-e1 - 1) as nat)) by (nonlinear_arith)
            requires
                pow2((-e1 - 1) as nat) >= 1,
        ;
    }
}

/// Multiplying both parts of a ratio by the same number does not change
/// the power of two just below it.
pub proof fn lemma_ratio_exp_scale(p: nat, q: nat, k: nat)
    requires
        p > 0,
        q > 0,
        k > 0,
    ensures
        ratio_exp(p * k, q * k) == ratio_exp(p, q),
{
    lemma_ratio_exp_bounds(p, q);
    let e = ratio_exp(p, q);
    assert(p * k > 0 && q * k > 0) by (nonlinear_arith)
        requires
            p > 0,
            q > 0,
            k > 0,
    ;
    if e >= 0 {
        let a = pow2(e as nat);
        let b = pow2((e + 1) as nat);
        assert((q * k) * a <= p * k && p * k < (q * k) * b) by (nonlinear_arith)
            requires
                q * a <= p,
                p < q * b,
                k > 0,
        ;
    } else {
        let a = pow2((-e) as nat);
        let b = pow2((-e - 1) as nat);
        assert(q * k <= (p * k) * a && (p * k) * b < q * k) by (nonlinear_arith)
            requires
                q <= p * a,
                p * b < q,
                k > 0,
        ;
    }
    lemma_ratio_exp_unique(p * k, q * k, e);
}

/// Rounding to the nearest integer depends on the ratio alone.
pub proof fn lemma_round_half_even_scale(n: nat, d: nat, k: nat)
    requires
        d > 0,
        k > 0,
    ensures
        round_half_even(n * k, d * k) == round_half_even(n, d),
{
    let q = n / d;
    let r = n % d;
    lemma_fundamental_div_mod(n as int, d as int);
    assert(d * k > 0) by (nonlinear_arith)
        requires
            d > 0,
            k > 0,
    ;
    assert(n * k == (d * k) * q + r * k && 0 <= r * k < d * k) by (nonlinear_arith)
        requires
            n == d * q + r,
            0 <= r < d,
            k > 0,
    ;
    lemma_fundamental_div_mod_converse((n * k) as int, (d * k) as int, q as int, (r * k) as int);
    assert((2 * (r * k) > d * k) == (2 * r > d) && (2 * (r * k) == d * k) == (2 * r == d))
        by (nonlinear_arith)
        requires
            k > 0,
    ;
}

/// Rounding depends on the ratio alone: multiplying both of its parts by
/// the same number changes nothing.
pub proof fn lemma_round_ratio_scale(neg: bool, p: nat, q: nat, k: nat)
    requires
        q > 0,
        k > 0,
    ensures
        round_ratio(neg, p * k, q * k) == round_ratio(neg, p, q),
{
    if p == 0 {
        assert(p * k == 0) by (nonlinear_arith)
            requires
                p == 0,
        ;
    } else {
        assert(p * k > 0) by (nonlinear_arith)
            requires
                p > 0,
                k > 0,
        ;
        lemma_ratio_exp_scale(p, q, k);
        let u = ulp_exp(p, q);
        let n = scaled_num(p, u);
        let d = scaled_den(q, u);
        if u < 0 {
            let f = pow2((-u) as nat);
            assert((p * k) * f == (p * f) * k) by (nonlinear_arith);
        }
        if u > 0 {
            let f = pow2(u as nat);
            lemma_pow2_pos(u as nat);
            assert((q * k) * f == (q * f) * k) by (nonlinear_arith);
            assert(q * f > 0) by (nonlinear_arith)
                requires
                    q > 0,
                    f > 0,
            ;
        }
        assert(scaled_num(p * k, u) == n * k);
        assert(scaled_den(q * k, u) == d * k);
        lemma_round_half_even_scale(n, d, k);
    }
}

/// An integer below 2^53 is held exactly: the number nearest to it is
/// finite, not negative, without fractional part, and of the integer's size.
pub proof fn lemma_small_integer_exact(n: nat)
    requires
        n < pow2(53),
    ensures
        is_finite(from_int_spec(n as int)),
        !sign_of(from_int_spec(n as int)),
        integral(from_int_spec(n as int)),
        trunc_magnitude(from_int_spec(n as int)) == n,
        int_value(from_int_spec(n as int)) == n,
        n > 0 ==> mantissa(from_int_spec(n as int)) * pow2(
            (exponent(from_int_spec(n as int)) + 52) as nat,
        ) == n * pow2(52) && -52 <= exponent(from_int_spec(n as int)) <= 0,
{
    lemma2_to64();
    vstd::arithmetic::power2::lemma2_to64_rest();
    let bits = from_int_spec(n as int);
    assert(n * pow2(0) == n) by (nonlinear_arith)
        requires
            pow2(0) == 1,
    ;
    assert(bits == round_ratio(false, n, 1));
    if n == 0 {
        assert(bits == 0);
        lemma_pow2_pos(1074);
        assert(0nat / pow2(1074) == 0) by (nonlinear_arith)
            requires
                pow2(1074) > 0,
        ;
        assert(0nat % pow2(1074) == 0) by (nonlinear_arith)
            requires
                pow2(1074) > 0,
        ;
    } else {
        lemma_bit_len_bounds(n);
        let a = (bit_len(n) - 1) as nat;
        if a >= 53 {
            lemma_pow2_le(53, a);
        }
        assert(a <= 52);
        assert(bit_len(1) == 1) by {
            lemma_bit_len_unique(1, 1);
        }
        let pa = pow2(a);
        assert(1 * pa == pa);
        assert(ratio_exp(n, 1) == a);
        let u: int = a - 52;
        assert(ulp_exp(n, 1) == u);
        let f = pow2((52 - a) as nat);
        lemma_pow2_pos((52 - a) as nat);
        lemma_pow2_adds(a, (52 - a) as nat);
        lemma_pow2_adds(a + 1, (52 - a) as nat);
        lemma_pow2_unfold(a + 1);
        let big: nat = n * f;
        assert(scaled_num(n, u) == big) by {
            if u == 0 {
                assert(n * 1 == n);
            }
        }
        assert(scaled_den(1, u) == 1);
        assert(pow2(52) <= big && big < pow2(53)) by (nonlinear_arith)
            requires
                pa <= n,
                n < 2 * pa,
                pa * f == pow2(52),
                (2 * pa) * f == pow2(53),
                f > 0,
                big == n * f,
        ;
        assert(round_half_even(big, 1) == big);
        let mag: int = (u + 1074) * HIDDEN + big;
        assert(mag == (u + 1075) * HIDDEN + (big - HIDDEN)) by (nonlinear_arith)
            requires
                mag == (u + 1074) * HIDDEN + big,
        ;
        assert(0 <= mag < INFINITY_BITS) by (nonlinear_arith)
            requires
                mag == (u + 1075) * 0x10_0000_0000_0000 + (big - 0x10_0000_0000_0000),
                0 <= big - 0x10_0000_0000_0000 < 0x10_0000_0000_0000,
                1023 <= u + 1075 <= 1075,
                INFINITY_BITS == 0x7ff0_0000_0000_0000,
        ;
        assert(bits == mag);
        lemma_fundamental_div_mod_converse(
            mag,
            HIDDEN as int,
            u + 1075,
            big - HIDDEN,
        );
        assert(bits / HIDDEN == u + 1075);
        assert(bits % HIDDEN == big - HIDDEN);
        assert(exp_field(bits) == (u + 1075) as nat);
        assert(frac_field(bits) == (big - HIDDEN) as nat);
        assert(mantissa(bits) == big);
        assert(exponent(bits) == u);
        if u == 0 {
            assert(big == n);
            assert(big * 1 == big);
        } else {
            assert(big / f == n && big % f == 0) by {
                assert(big == f * n + 0) by (nonlinear_arith)
                    requires
                        big == n * f,
                ;
                lemma_fundamental_div_mod_converse(big as int, f as int, n as int, 0);
            }
        }
        assert(mantissa(bits) * pow2((exponent(bits) + 52) as nat) == n * pow2(52))
            by (nonlinear_arith)
            requires
                mantissa(bits) == n * f,
                pow2((exponent(bits) + 52) as nat) == pa,
                pa * f == pow2(52),
        ;
    }
}

/// Adding one to the number of an integer gives the number of the next
/// integer, as long as that is below 2^53.
pub proof fn lemma_add_one(n: nat)
    requires
        n + 1 < pow2(53),
    ensures
        add_spec(from_int_spec(n as int), crate::lowering::ONE_BITS) == from_int_spec(n as int + 1),
{
    lemma2_to64();
    vstd::arithmetic::power2::lemma2_to64_rest();
    let one = crate::lowering::ONE_BITS;
    let x = from_int_spec(n as int);
    lemma_small_integer_exact(n);
    lemma_small_integer_exact(1);
    assert(one == 1023 * HIDDEN + 0);
    lemma_fundamental_div_mod_converse(one as int, HIDDEN as int, 1023, 0);
    assert(exp_field(one) == 1023);
    assert(mantissa(one) == HIDDEN);
    assert(exponent(one) == -52);
    assert(!sign_of(one));
    let two52 = pow2(52);
    assert(n * pow2(0) == n) by (nonlinear_arith)
        requires
            pow2(0) == 1,
    ;
    assert((n + 1) * pow2(0) == n + 1) by (nonlinear_arith)
        requires
            pow2(0) == 1,
    ;
    if n == 0 {
        assert(x == 0);
        assert(mantissa(x) == 0 && exponent(x) == -1074);
        assert(min_exp(x, one) == -1074);
        assert(0 * pow2(0) == 0);
        assert(aligned(x, -1074) == 0);
        lemma_pow2_adds(52, 1022);
        assert(aligned(one, -1074) == two52 * pow2(1022));
        let total = two52 * pow2(1022);
        lemma_pow2_pos(1022);
        assert(total > 0) by (nonlinear_arith)
            requires
                total == two52 * pow2(1022),
                two52 > 0,
                pow2(1022) > 0,
        ;
        assert(signed(false, aligned(x, -1074)) + signed(false, aligned(one, -1074)) == total);
        assert(add_spec(x, one) == round_ratio(false, total, pow2(1074)));
        lemma_round_ratio_scale(false, 1, 1, pow2(1074));
        assert(1 * pow2(1074) == pow2(1074));
        assert(total == 1 * pow2(1074)) by {
            lemma_pow2_adds(52, 1022);
        }
        assert(from_int_spec(1) == round_ratio(false, 1, 1));
    } else {
        let e0 = min_exp(x, one);
        assert(e0 == -52);
        let ax = aligned(x, -52);
        assert(ax == n * two52);
        assert(pow2(0) == 1);
        assert(aligned(one, -52) == two52) by {
            assert(HIDDEN * 1 == HIDDEN);
        }
        let total: nat = (n + 1) * two52;
        assert(n * two52 + two52 == total) by (nonlinear_arith)
            requires
                total == (n + 1) * two52,
        ;
        assert(total > 0) by (nonlinear_arith)
            requires
                total == (n + 1) * two52,
                two52 > 0,
        ;
        assert(signed(false, ax) + signed(false, aligned(one, -52)) == total);
        assert(add_spec(x, one) == round_scaled(false, total, -52));
        assert(round_scaled(false, total, -52) == round_ratio(false, total, two52));
        lemma_round_ratio_scale(false, n + 1, 1, two52);
        assert(1 * two52 == two52);
        assert(from_int_spec(n as int + 1) == round_ratio(false, n + 1, 1));
    }
}

} // verus!
