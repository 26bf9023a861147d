//! Rounding a ratio of two natural numbers to 53 significant bits, the
//! precision of a binary64 floating-point number.

use vstd::arithmetic::div_mod::lemma_fundamental_div_mod;
use vstd::arithmetic::div_mod::lemma_fundamental_div_mod_converse;
use vstd::arithmetic::power2::lemma_pow2_adds;
use vstd::arithmetic::power2::lemma_pow2_pos;
use vstd::arithmetic::power2::lemma_pow2_strictly_increases;
use vstd::arithmetic::power2::lemma_pow2_unfold;
use vstd::arithmetic::power2::pow2;
use vstd::prelude::*;
use crate::decimal::are_digits;
use crate::decimal::dec_value;
use crate::decimal::double;
use crate::decimal::is_zero;
use crate::decimal::lemma_dec_value_bound;
use crate::decimal::lemma_pow10_positive;
use crate::decimal::pow10;

verus! {

/// The integer nearest to `p / q`; of two that are equally near, the even
/// one.
pub open spec fn round_half_even(p: nat, q: nat) -> nat {
    let f = p / q;
    let r = p % q;
    if 2 * r < q || (2 * r == q && f % 2 == 0) {
        f
    } else {
        f + 1
    }
}

/// For `p >= q > 0`, the exponent `e` with `2^e <= p / q < 2^(e + 1)`.
pub open spec fn halvings(p: nat, q: nat) -> nat
    decreases p - q,
{
    if q > 0 && p >= 2 * q {
        1 + halvings(p, 2 * q)
    } else {
        0
    }
}

/// For `0 < p < q`, the exponent `d` with `2^-d <= p / q < 2^(1 - d)`.
pub open spec fn doublings(p: nat, q: nat) -> nat
    decreases q - p,
{
    if 0 < p && 2 * p < q {
        1 + doublings(2 * p, q)
    } else if 0 < p < q {
        1
    } else {
        0
    }
}

/// The integer part of `p / q` rounded to 53 significant bits, to the nearest
/// such number, and to the one with an even last bit where two are equally
/// near.
///
/// With `2^e <= p / q < 2^(e + 1)`, the numbers of 53 significant bits around
/// `p / q` are the multiples of `2^(e - 52)`.
pub open spec fn round53_floor(p: nat, q: nat) -> nat {
    if p == 0 || q == 0 {
        0
    } else if p >= q {
        let e = halvings(p, q);
        if e >= 52 {
            let unit = pow2((e - 52) as nat);
            round_half_even(p, q * unit) * unit
        } else {
            let unit = pow2((52 - e) as nat);
            round_half_even(p * unit, q) / unit
        }
    } else {
        let unit = pow2(52 + doublings(p, q));
        round_half_even(p * unit, q) / unit
    }
}

/// `round_half_even` from any quotient and remainder.
pub proof fn lemma_round_half_even(p: nat, q: nat, f: nat, r: nat)
    requires
        q > 0,
        p == f * q + r,
        r < q,
    ensures
        round_half_even(p, q) == if 2 * r < q || (2 * r == q && f % 2 == 0) {
            f
        } else {
            f + 1
        },
{
    lemma_fundamental_div_mod_converse(p as int, q as int, f as int, r as int);
}

/// What `halvings` is.
pub proof fn lemma_halvings(p: nat, q: nat)
    requires
        q > 0,
        p >= q,
    ensures
        pow2(halvings(p, q)) * q <= p < 2 * pow2(halvings(p, q)) * q,
    decreases p - q,
{
    if p >= 2 * q {
        lemma_halvings(p, 2 * q);
        let h = halvings(p, 2 * q);
        lemma_pow2_unfold(h + 1);
        let a = pow2(h) as int;
        assert(pow2(h + 1) * q == a * (2 * q)) by (nonlinear_arith)
            requires
                pow2(h + 1) == 2 * a,
        ;
        assert(2 * pow2(h + 1) * q == 2 * a * (2 * q)) by (nonlinear_arith)
            requires
                pow2(h + 1) == 2 * a,
        ;
    } else {
        assert(pow2(0) == 1) by {
            vstd::arithmetic::power2::lemma2_to64();
        }
        assert(pow2(0) * q == q) by (nonlinear_arith)
            requires
                pow2(0) == 1,
        ;
        assert(2 * pow2(0) * q == 2 * q) by (nonlinear_arith)
            requires
                pow2(0) == 1,
        ;
    }
}

/// `halvings` is the only exponent with the property that `lemma_halvings`
/// states.
pub proof fn lemma_halvings_is(p: nat, q: nat, e: nat)
    requires
        q > 0,
        pow2(e) * q <= p < 2 * pow2(e) * q,
    ensures
        halvings(p, q) == e,
    decreases e,
{
    if e == 0 {
        assert(pow2(0) == 1) by {
            vstd::arithmetic::power2::lemma2_to64();
        }
        assert(pow2(e) * q == q && 2 * pow2(e) * q == 2 * q) by (nonlinear_arith)
            requires
                pow2(e) == 1,
        ;
    } else {
        lemma_pow2_unfold(e);
        lemma_pow2_pos((e - 1) as nat);
        let a = pow2((e - 1) as nat) as int;
        assert(pow2(e) * q == a * (2 * q) && 2 * pow2(e) * q == 2 * a * (2 * q) && a * (2 * q) >= 2
            * q) by (nonlinear_arith)
            requires
                pow2(e) == 2 * a,
                a >= 1,
                q > 0,
        ;
        lemma_halvings_is(p, 2 * q, (e - 1) as nat);
    }
}

/// What `doublings` is.
pub proof fn lemma_doublings(p: nat, q: nat)
    requires
        0 < p < q,
    ensures
        doublings(p, q) >= 1,
        q <= pow2(doublings(p, q)) * p < 2 * q,
    decreases q - p,
{
    if 2 * p >= q {
        assert(pow2(1) == 2) by {
            vstd::arithmetic::power2::lemma2_to64();
        }
        assert(pow2(1) * p == 2 * p) by (nonlinear_arith)
            requires
                pow2(1) == 2,
        ;
    } else {
        lemma_doublings(2 * p, q);
        let d = doublings(2 * p, q);
        lemma_pow2_unfold(d + 1);
        let a = pow2(d) as int;
        assert(pow2(d + 1) * p == a * (2 * p)) by (nonlinear_arith)
            requires
                pow2(d + 1) == 2 * a,
        ;
    }
}

/// `doublings` is the only exponent with the property that `lemma_doublings`
/// states.
pub proof fn lemma_doublings_is(p: nat, q: nat, d: nat)
    requires
        p > 0,
        d >= 1,
        q <= pow2(d) * p < 2 * q,
    ensures
        doublings(p, q) == d,
    decreases d,
{
    lemma_pow2_unfold(d);
    lemma_pow2_pos((d - 1) as nat);
    let a = pow2((d - 1) as nat) as int;
    assert(pow2(d) * p == a * (2 * p) && a * (2 * p) >= 2 * p) by (nonlinear_arith)
        requires
            pow2(d) == 2 * a,
            a >= 1,
            p > 0,
    ;
    if d == 1 {
        assert(pow2(0) == 1) by {
            vstd::arithmetic::power2::lemma2_to64();
        }
        assert(a * (2 * p) == 2 * p) by (nonlinear_arith)
            requires
                a == 1,
        ;
    } else {
        lemma_pow2_unfold((d - 1) as nat);
        lemma_pow2_pos((d - 2) as nat);
        let b = pow2((d - 2) as nat) as int;
        assert(a * (2 * p) >= 4 * p) by (nonlinear_arith)
            requires
                a == 2 * b,
                b >= 1,
                p > 0,
        ;
        lemma_doublings_is(2 * p, q, (d - 1) as nat);
    }
}

/// A common positive factor can be dropped from both sides of `<=`.
pub proof fn lemma_cancel_le(a: int, x: int, y: int)
    requires
        a > 0,
        a * x <= a * y,
    ensures
        x <= y,
{
    if x > y {
        assert(a * x >= a * (y + 1)) by (nonlinear_arith)
            requires
                a > 0,
                x >= y + 1,
        ;
        assert(a * (y + 1) == a * y + a) by (nonlinear_arith);
    }
}

/// A common positive factor can be dropped from both sides of `<`.
pub proof fn lemma_cancel_lt(a: int, x: int, y: int)
    requires
        a > 0,
        a * x < a * y,
    ensures
        x < y,
{
    if x >= y {
        assert(a * x >= a * y) by (nonlinear_arith)
            requires
                a > 0,
                x >= y,
        ;
    }
}

/// `round53_floor` of a ratio of at least `2^52`: the spacing is `2^u`, and
/// `f` is how many spacings lie below the ratio.
pub proof fn lemma_round53_coarse(p: nat, q: nat, u: nat, f: nat, r: nat)
    requires
        q > 0,
        pow2(52) <= f < pow2(53),
        p == f * (q * pow2(u)) + r,
        r < q * pow2(u),
    ensures
        round53_floor(p, q) == (if 2 * r < q * pow2(u) || (2 * r == q * pow2(u) && f % 2 == 0) {
            f
        } else {
            f + 1
        }) * pow2(u),
{
    let unit = pow2(u) as int;
    let e = 52 + u;
    let lo = pow2(52) as int;
    let qi = q as int;
    let fi = f as int;
    lemma_pow2_pos(u);
    lemma_pow2_pos(e);
    lemma_pow2_adds(52, u);
    lemma_pow2_unfold(53);
    assert(pow2(e) * qi <= fi * (qi * unit)) by (nonlinear_arith)
        requires
            pow2(e) == lo * unit,
            fi >= lo,
            qi > 0,
            unit > 0,
    ;
    assert((fi + 1) * (qi * unit) <= 2 * pow2(e) * qi) by (nonlinear_arith)
        requires
            pow2(e) == lo * unit,
            fi + 1 <= 2 * lo,
            qi > 0,
            unit > 0,
    ;
    assert((fi + 1) * (qi * unit) == fi * (qi * unit) + qi * unit) by (nonlinear_arith);
    lemma_halvings_is(p, q, e);
    assert(pow2(e) * qi >= qi) by (nonlinear_arith)
        requires
            pow2(e) >= 1,
            qi > 0,
    ;
    assert(qi * unit > 0) by (nonlinear_arith)
        requires
            qi > 0,
            unit > 0,
    ;
    lemma_round_half_even(p, q * pow2(u), f, r);
    assert((e - 52) as nat == u);
}

/// `round53_floor` of a ratio below `2^53`: the spacing is `2^-s`, and `f` is
/// how many spacings lie below the ratio.
pub proof fn lemma_round53_fine(p: nat, q: nat, s: nat, f: nat, r: nat)
    requires
        q > 0,
        s <= 53,
        pow2(52) <= f < pow2(53),
        pow2(s) * p == f * q + r,
        r < q,
    ensures
        round53_floor(p, q) == (if 2 * r < q || (2 * r == q && f % 2 == 0) {
            f
        } else {
            f + 1
        }) / pow2(s),
{
    let unit = pow2(s) as int;
    let lo = pow2(52) as int;
    let qi = q as int;
    let fi = f as int;
    let pi = p as int;
    lemma_pow2_pos(s);
    lemma_pow2_pos(52);
    lemma_pow2_unfold(53);
    assert(fi * qi >= lo * qi && (fi + 1) * qi <= 2 * lo * qi && (fi + 1) * qi == fi * qi + qi
        && lo * qi > 0) by (nonlinear_arith)
        requires
            lo <= fi,
            fi + 1 <= 2 * lo,
            qi > 0,
            lo > 0,
    ;
    assert(pi > 0) by (nonlinear_arith)
        requires
            unit * pi > 0,
            unit > 0,
    ;
    assert(p * pow2(s) == f * q + r) by (nonlinear_arith)
        requires
            pow2(s) * p == f * q + r,
    ;
    if s == 53 {
        assert(unit == 2 * lo);
        assert(unit * pi < unit * qi);
        lemma_cancel_lt(unit, pi, qi);
        assert(lo * (2 * pi) == unit * pi) by (nonlinear_arith)
            requires
                unit == 2 * lo,
        ;
        lemma_cancel_le(lo, qi, 2 * pi);
        assert(pow2(1) == 2) by {
            vstd::arithmetic::power2::lemma2_to64();
        }
        assert(pow2(1) * p == 2 * p) by (nonlinear_arith)
            requires
                pow2(1) == 2,
        ;
        lemma_doublings_is(p, q, 1);
        lemma_round_half_even(p * pow2(s), q, f, r);
    } else {
        let e = (52 - s) as nat;
        let half = pow2(e) as int;
        lemma_pow2_pos(e);
        lemma_pow2_adds(s, e);
        assert(lo == unit * half);
        assert(unit * (half * qi) == lo * qi && unit * (2 * half * qi) == 2 * lo * qi)
            by (nonlinear_arith)
            requires
                lo == unit * half,
        ;
        lemma_cancel_le(unit, half * qi, pi);
        lemma_cancel_lt(unit, pi, 2 * half * qi);
        lemma_halvings_is(p, q, e);
        assert(half * qi >= qi) by (nonlinear_arith)
            requires
                half >= 1,
                qi > 0,
        ;
        if s == 0 {
            assert(pow2(0) == 1) by {
                vstd::arithmetic::power2::lemma2_to64();
            }
            assert(q * pow2(0) == q && p * pow2(0) == p) by (nonlinear_arith)
                requires
                    pow2(0) == 1,
            ;
            lemma_round_half_even(p, q, f, r);
            let m = round_half_even(p, q);
            assert(m * pow2(0) == m && m / pow2(0) == m) by (nonlinear_arith)
                requires
                    pow2(0) == 1,
            ;
        } else {
            assert((52 - e) as nat == s);
            lemma_round_half_even(p * pow2(s), q, f, r);
        }
    }
}

/// A ratio below one half rounds to less than one.
pub proof fn lemma_round53_small(p: nat, q: nat)
    requires
        2 * p < q,
    ensures
        round53_floor(p, q) == 0,
{
    if p > 0 {
        lemma_doublings(p, q);
        let d = doublings(p, q);
        let unit = pow2(52 + d);
        let hi = pow2(53) as int;
        lemma_pow2_adds(52, d);
        lemma_pow2_pos(52);
        lemma_pow2_pos(d);
        lemma_pow2_unfold(53);
        assert(d >= 2) by {
            if d == 1 {
                assert(pow2(1) == 2) by {
                    vstd::arithmetic::power2::lemma2_to64();
                }
                assert(pow2(1) * p == 2 * p) by (nonlinear_arith)
                    requires
                        pow2(1) == 2,
                ;
            }
        }
        lemma_pow2_strictly_increases(53, 52 + d);
        let num = p * unit;
        let f = num / q;
        let r = num % q;
        lemma_fundamental_div_mod(num as int, q as int);
        assert(num < hi * q) by (nonlinear_arith)
            requires
                num == p * unit,
                unit == pow2(52) * pow2(d),
                pow2(d) * p < 2 * q,
                hi == 2 * pow2(52),
                pow2(52) > 0,
        ;
        assert(f < hi) by {
            if f >= hi {
                assert(q * f >= q * hi) by (nonlinear_arith)
                    requires
                        f >= hi,
                        q > 0,
                ;
                assert(q * hi == hi * q) by (nonlinear_arith);
            }
        }
        assert(round_half_even(num, q) <= hi);
        vstd::arithmetic::div_mod::lemma_basic_div(round_half_even(num, q) as int, unit as int);
    }
}

/// A ratio of `2^64` or more rounds to `2^64` or more.
pub proof fn lemma_round53_large(p: nat, q: nat)
    requires
        q > 0,
        p >= pow2(64) * q,
    ensures
        round53_floor(p, q) >= pow2(64),
{
    lemma_pow2_pos(64);
    assert(pow2(64) * q >= q) by (nonlinear_arith)
        requires
            pow2(64) >= 1,
            q > 0,
    ;
    lemma_halvings(p, q);
    let e = halvings(p, q);
    assert(e >= 64) by {
        if e < 64 {
            if e + 1 < 64 {
                lemma_pow2_strictly_increases(e + 1, 64);
            }
            lemma_pow2_unfold(e + 1);
            assert(2 * pow2(e) * q <= pow2(64) * q) by (nonlinear_arith)
                requires
                    2 * pow2(e) <= pow2(64),
                    q > 0,
            ;
        }
    }
    let u = (e - 52) as nat;
    let unit = pow2(u) as int;
    let lo = pow2(52) as int;
    lemma_pow2_adds(52, u);
    lemma_pow2_pos(u);
    lemma_pow2_pos(52);
    let d = q * pow2(u);
    assert(d > 0) by (nonlinear_arith)
        requires
            d == q * unit,
            q > 0,
            unit > 0,
    ;
    let f = p / d;
    let r = p % d;
    lemma_fundamental_div_mod(p as int, d as int);
    assert(f >= lo) by {
        if f < lo {
            assert(d * f + r < d * lo) by (nonlinear_arith)
                requires
                    f + 1 <= lo,
                    r < d,
                    d > 0,
            ;
            assert(d * lo == pow2(e) * q) by (nonlinear_arith)
                requires
                    d == q * unit,
                    pow2(e) == lo * unit,
            ;
        }
    }
    let m = round_half_even(p, d);
    assert(m * unit >= pow2(e)) by (nonlinear_arith)
        requires
            m >= lo,
            pow2(e) == lo * unit,
            unit > 0,
    ;
    if e > 64 {
        lemma_pow2_strictly_increases(64, e);
    }
}

/// A whole number of no more than 53 bits is not changed by rounding.
pub proof fn lemma_round53_exact(p: nat, q: nat, v: nat)
    requires
        q > 0,
        p == v * q,
        v < pow2(53),
    ensures
        round53_floor(p, q) == v,
{
    if v > 0 {
        let vi = v as int;
        let qi = q as int;
        assert(vi * qi >= qi) by (nonlinear_arith)
            requires
                vi >= 1,
                qi > 0,
        ;
        lemma_halvings(p, q);
        let e = halvings(p, q);
        let lo = pow2(e) as int;
        lemma_pow2_pos(e);
        assert(lo * qi == qi * lo && 2 * lo * qi == qi * (2 * lo) && vi * qi == qi * vi)
            by (nonlinear_arith);
        lemma_cancel_le(qi, lo, vi);
        lemma_cancel_lt(qi, vi, 2 * lo);
        if e >= 53 {
            if e > 53 {
                lemma_pow2_strictly_increases(53, e);
            }
        }
        let s = (52 - e) as nat;
        let unit = pow2(s) as int;
        lemma_pow2_pos(s);
        lemma_pow2_adds(e, s);
        lemma_pow2_unfold(53);
        let f = v * pow2(s);
        assert(pow2(52) <= f < pow2(53)) by (nonlinear_arith)
            requires
                f == vi * unit,
                pow2(52) == lo * unit,
                pow2(53) == 2 * pow2(52),
                lo <= vi < 2 * lo,
                unit > 0,
        ;
        assert(pow2(s) * p == f * q + 0) by (nonlinear_arith)
            requires
                f == vi * unit,
                p == vi * qi,
                pow2(s) == unit,
                q == qi,
        ;
        lemma_round53_fine(p, q, s, f, 0);
        assert(f % 2 == 0 || f % 2 == 1);
        vstd::arithmetic::div_mod::lemma_fundamental_div_mod_converse(f as int, unit, vi, 0);
    } else {
        assert(p == 0) by (nonlinear_arith)
            requires
                p == v * q,
                v == 0,
        ;
    }
}

/// The smallest power of two that has 53 bits.
pub const MANTISSA_MIN: u128 = 0x10000000000000;

/// The smallest power of two that has more than 53 bits.
pub const MANTISSA_END: u128 = 0x20000000000000;

/// The smallest number that does not fit in 64 bits.
pub const U64_END: u128 = 0x10000000000000000;

/// `n` if it fits in 64 bits, and otherwise the largest number that does.
pub open spec fn saturated(n: nat) -> u64 {
    if n > u64::MAX {
        u64::MAX
    } else {
        n as u64
    }
}

/// The number `whole.frac`, where `frac` holds the decimal digits after the
/// point, times ten to the number of those digits.
pub open spec fn mixed(whole: nat, frac: Seq<u8>) -> nat {
    whole * pow10(frac.len()) + dec_value(frac)
}

/// The number `whole.frac`, where `frac` holds the decimal digits after the
/// point: rounded to 53 significant bits, of that the integer part, and of
/// that what fits in 64 bits.
pub(crate) fn round53(whole: u128, frac: Vec<u8>) -> (out: u64)
    requires
        are_digits(frac@),
    ensures
        out == saturated(round53_floor(mixed(whole as nat, frac@), pow10(frac@.len()))),
{
    let mut frac = frac;
    let ghost q = pow10(frac@.len());
    let ghost r = dec_value(frac@);
    let ghost p: nat = (whole * q + r) as nat;
    proof {
        lemma_pow10_positive(frac@.len());
        lemma_dec_value_bound(frac@);
        vstd::arithmetic::power2::lemma2_to64();
        vstd::arithmetic::power2::lemma2_to64_rest();
    }
    if whole >= U64_END {
        proof {
            assert(whole * q >= pow2(64) * q) by (nonlinear_arith)
                requires
                    whole >= pow2(64),
                    q > 0,
            ;
            lemma_round53_large(p, q);
        }
        return u64::MAX;
    }
    if whole >= MANTISSA_END {
        let mut f: u128 = whole;
        let mut unit: u128 = 1;
        let mut low: u128 = 0;
        let ghost mut u: nat = 0;
        while f >= MANTISSA_END
            invariant
                whole == f * unit + low,
                low < unit,
                unit == pow2(u),
                unit <= 4096,
                f >= MANTISSA_MIN,
                whole < U64_END,
                u == 0 ==> f == whole,
                u > 0 ==> unit % 2 == 0,
            decreases f,
        {
            let bit: u128 = f % 2;
            let ghost f0 = f;
            let ghost unit0 = unit;
            proof {
                lemma_pow2_unfold(u + 1);
                assert(unit < 2048) by (nonlinear_arith)
                    requires
                        f >= 0x20000000000000,
                        whole == f * unit + low,
                        low >= 0,
                        whole < 0x10000000000000000,
                ;
                assert(bit * unit <= unit) by (nonlinear_arith)
                    requires
                        bit <= 1,
                        unit >= 0,
                ;
            }
            low = low + bit * unit;
            f = f / 2;
            unit = unit * 2;
            proof {
                u = u + 1;
                assert(f * unit + low == f0 * unit0 + (low - bit * unit0)) by (nonlinear_arith)
                    requires
                        f0 == 2 * f + bit,
                        unit == 2 * unit0,
                ;
            }
        }
        let half: u128 = unit / 2;
        let exact: bool = is_zero(&frac);
        let up: bool = low > half || (low == half && (!exact || f % 2 == 1));
        let m: u128 = if up {
            f + 1
        } else {
            f
        };
        proof {
            let qi = q as int;
            let ui = unit as int;
            let li = low as int;
            let ri = r as int;
            let hi = half as int;
            let big: nat = (low * q + r) as nat;
            assert(ui == 2 * hi);
            assert(whole * q + r == f * (qi * ui) + big) by (nonlinear_arith)
                requires
                    whole == f * ui + li,
                    big == li * qi + ri,
                    q == qi,
                    r == ri,
            ;
            assert(big < qi * ui) by (nonlinear_arith)
                requires
                    big == li * qi + ri,
                    li + 1 <= ui,
                    ri < qi,
                    0 <= li,
            ;
            assert(q * pow2(u) == qi * ui);
            lemma_round53_coarse(p, q, u, f as nat, big);
            assert(li > hi ==> 2 * big > qi * ui) by (nonlinear_arith)
                requires
                    big == li * qi + ri,
                    ui == 2 * hi,
                    ri >= 0,
                    qi > 0,
            ;
            assert(li < hi ==> 2 * big < qi * ui) by (nonlinear_arith)
                requires
                    big == li * qi + ri,
                    ui == 2 * hi,
                    ri < qi,
                    qi > 0,
            ;
            assert(li == hi ==> 2 * big == qi * ui + 2 * ri) by (nonlinear_arith)
                requires
                    big == li * qi + ri,
                    ui == 2 * hi,
            ;
            assert(m * unit <= 0x20000000000000 * 4096) by (nonlinear_arith)
                requires
                    0 <= m <= 0x20000000000000,
                    0 <= unit <= 4096,
            ;
        }
        let rounded: u128 = m * unit;
        if rounded >= U64_END {
            return u64::MAX;
        }
        return rounded as u64;
    }
    let mut f: u128 = whole;
    let mut unit: u128 = 1;
    let mut s: u32 = 0;
    while f < MANTISSA_MIN && s < 53
        invariant
            are_digits(frac@),
            q == pow10(frac@.len()),
            q > 0,
            pow2(s as nat) * p == f * q + dec_value(frac@),
            f < MANTISSA_END,
            s <= 53,
            unit == pow2(s as nat),
        decreases 53 - s,
    {
        let ghost r0 = dec_value(frac@);
        let ghost f0 = f;
        proof {
            vstd::arithmetic::power2::lemma2_to64_rest();
            lemma_pow2_strictly_increases(s as nat, 53);
        }
        let carry: u8 = double(&mut frac);
        f = 2 * f + carry as u128;
        proof {
            lemma_pow2_unfold((s + 1) as nat);
            let a = pow2(s as nat) as int;
            assert((2 * a) * p == (2 * f0 + carry) * q + dec_value(frac@)) by (nonlinear_arith)
                requires
                    a * p == f0 * q + r0,
                    2 * r0 == carry * q + dec_value(frac@),
            ;
            if s + 1 < 54 {
                lemma_pow2_strictly_increases((s + 1) as nat, 54);
            }
        }
        unit = unit * 2;
        s = s + 1;
    }
    proof {
        lemma_dec_value_bound(frac@);
    }
    if f < MANTISSA_MIN {
        proof {
            let lo = pow2(52) as int;
            let r1 = dec_value(frac@) as int;
            assert(f * q + r1 < lo * q) by (nonlinear_arith)
                requires
                    f + 1 <= lo,
                    r1 < q,
                    q > 0,
            ;
            assert(lo * (2 * p) == pow2(53) * p) by (nonlinear_arith)
                requires
                    pow2(53) == 2 * lo,
            ;
            lemma_cancel_lt(lo, 2 * (p as int), q as int);
            lemma_round53_small(p, q);
        }
        return 0;
    }
    let ghost r1 = dec_value(frac@);
    let carry: u8 = double(&mut frac);
    let exact: bool = is_zero(&frac);
    let up: bool = carry == 1 && (!exact || f % 2 == 1);
    let m: u128 = if up {
        f + 1
    } else {
        f
    };
    proof {
        lemma_round53_fine(p, q, s as nat, f as nat, r1);
        lemma_pow2_pos(s as nat);
        let r2 = dec_value(frac@);
        lemma_dec_value_bound(frac@);
        assert(carry * q == if carry == 1 {
            q
        } else {
            0
        }) by (nonlinear_arith)
            requires
                carry == 0 || carry == 1,
        ;
        vstd::arithmetic::div_mod::lemma_div_nonincreasing(m as int, unit as int);
        vstd::arithmetic::div_mod::lemma_div_pos_is_pos(m as int, unit as int);
    }
    (m / unit) as u64
}

} // verus!
