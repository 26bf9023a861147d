//! A decimal number times a power of two, as the integer that a binary64
//! computation of it gives.

use vstd::arithmetic::power2::lemma_pow2_pos;
use vstd::arithmetic::power2::lemma_pow2_strictly_increases;
use vstd::arithmetic::power2::lemma_pow2_unfold;
use vstd::arithmetic::power2::pow2;
use vstd::prelude::*;
use crate::binary::lemma_round53_exact;
use crate::binary::lemma_round53_large;
use crate::binary::lemma_round53_small;
use crate::binary::mixed;
use crate::binary::round53;
use crate::binary::round53_floor;
use crate::binary::saturated;
use crate::decimal::are_digits;
use crate::decimal::dec_value;
use crate::decimal::double;
use crate::decimal::lemma_dec_value_bound;
use crate::decimal::lemma_dec_value_concat;
use crate::decimal::lemma_dec_value_leading;
use crate::decimal::lemma_dec_value_leading_zeros;
use crate::decimal::lemma_pow10_adds;
use crate::decimal::lemma_pow10_increases;
use crate::decimal::lemma_pow10_positive;
use crate::decimal::pow10;

verus! {

/// The largest power of two that a number is scaled by here.
pub const MAX_SHIFT: u32 = 40;

/// Exponents are read exactly up to this number; a larger one is as good as
/// this one.
pub const EXPONENT_CAP: u128 = 1000000000000000000000000000000;

/// The number `n * 10^k * 2^shift`: rounded to 53 significant bits, of that
/// the integer part, and of that what fits in 64 bits.
///
/// This is the integer that comes of converting `n * 10^k` to the nearest
/// binary64, multiplying by `2^shift`, and cutting off the fraction. A
/// binary64 has 53 significant bits. Its exponent is limited too, but that
/// changes nothing here: what is too small for it is less than one after the
/// multiplication either way, and what is too large for it does not fit in
/// 64 bits either way.
pub open spec fn scaled(n: nat, k: int, shift: nat) -> u64 {
    if k >= 0 {
        saturated(round53_floor(n * pow10(k as nat) * pow2(shift), 1))
    } else {
        saturated(round53_floor(n * pow2(shift), pow10((-k) as nat)))
    }
}

/// `v` with the sign that `negative` gives.
pub open spec fn signed(negative: bool, v: nat) -> int {
    if negative {
        -(v as int)
    } else {
        v as int
    }
}

/// The powers that the limits below rest on.
pub proof fn lemma_powers()
    ensures
        pow10(20) == 100000000000000000000,
        pow10(13) == 10000000000000,
        pow10(0) == 1,
        pow2(0) == 1,
        pow2(40) == 0x10000000000,
        pow2(64) == 0x10000000000000000,
{
    reveal_with_fuel(pow10, 21);
    vstd::arithmetic::power2::lemma2_to64();
    vstd::arithmetic::power2::lemma2_to64_rest();
}

/// The number that the digits denote, or `EXPONENT_CAP` if that is less.
pub(crate) fn capped_value(ds: &Vec<u8>) -> (v: u128)
    requires
        are_digits(ds@),
    ensures
        v == if dec_value(ds@) < EXPONENT_CAP {
            dec_value(ds@)
        } else {
            EXPONENT_CAP as nat
        },
{
    let mut v: u128 = 0;
    let mut i: usize = 0;
    while i < ds.len()
        invariant
            i <= ds@.len(),
            are_digits(ds@),
            v == if dec_value(ds@.take(i as int)) < EXPONENT_CAP {
                dec_value(ds@.take(i as int))
            } else {
                EXPONENT_CAP as nat
            },
        decreases ds@.len() - i,
    {
        proof {
            assert(ds@.take(i + 1).drop_last() =~= ds@.take(i as int));
        }
        v = v * 10 + ds[i] as u128;
        if v > EXPONENT_CAP {
            v = EXPONENT_CAP;
        }
        i += 1;
    }
    proof {
        assert(ds@.take(i as int) =~= ds@);
    }
    v
}

/// The number that the digits from `from` up to `to` denote.
pub(crate) fn digits_value(ds: &Vec<u8>, from: usize, to: usize) -> (v: u128)
    requires
        are_digits(ds@),
        from <= to <= ds@.len(),
        to - from <= 20,
    ensures
        v == dec_value(ds@.subrange(from as int, to as int)),
        v < pow10((to - from) as nat),
{
    let mut v: u128 = 0;
    let mut i: usize = from;
    proof {
        lemma_powers();
    }
    while i < to
        invariant
            from <= i <= to <= ds@.len(),
            to - from <= 20,
            are_digits(ds@),
            v == dec_value(ds@.subrange(from as int, i as int)),
            v < pow10((i - from) as nat),
            pow10(20) == 100000000000000000000,
        decreases to - i,
    {
        proof {
            assert(ds@.subrange(from as int, i + 1).drop_last() =~= ds@.subrange(
                from as int,
                i as int,
            ));
            lemma_pow10_increases((i - from) as nat, 20);
        }
        v = v * 10 + ds[i] as u128;
        i += 1;
    }
    v
}

/// Cuts a numeral at its decimal point. The numeral is `digits` from `z` on,
/// and the point stands `point` places after `z`, or before it if `point` is
/// negative. What comes back is the number before the point and the digits
/// after it.
pub(crate) fn cut_at_point(digits: &Vec<u8>, z: usize, point: i128) -> (out: (u128, Vec<u8>))
    requires
        are_digits(digits@),
        z < digits@.len(),
        -13 < point <= 20,
    ensures
        are_digits(out.1@),
        out.0 < 100000000000000000000,
        point >= digits@.len() - z ==> out.1@.len() == 0 && out.0 == dec_value(
            digits@.skip(z as int),
        ) * pow10((point - (digits@.len() - z)) as nat),
        point < digits@.len() - z ==> out.1@.len() == digits@.len() - z - point && mixed(
            out.0 as nat,
            out.1@,
        ) == dec_value(digits@.skip(z as int)),
{
    let m: usize = digits.len() - z;
    let ghost sig = digits@.skip(z as int);
    let ghost n = dec_value(sig);
    let mut whole: u128;
    let mut frac: Vec<u8> = Vec::new();
    proof {
        lemma_powers();
        assert(digits@.subrange(z as int, digits@.len() as int) =~= sig);
    }
    if point >= m as i128 {
        // Every digit stands before the point.
        whole = digits_value(digits, z, digits.len());
        let zeros: usize = (point - m as i128) as usize;
        let mut i: usize = 0;
        proof {
            assert(whole * pow10(0) == whole) by (nonlinear_arith)
                requires
                    pow10(0) == 1,
            ;
        }
        while i < zeros
            invariant
                i <= zeros,
                m + zeros <= 20,
                whole == n * pow10(i as nat),
                whole < pow10((m + i) as nat),
                pow10(20) == 100000000000000000000,
            decreases zeros - i,
        {
            proof {
                lemma_pow10_increases((m + i + 1) as nat, 20);
                assert(n * pow10((i + 1) as nat) == (n * pow10(i as nat)) * 10) by (nonlinear_arith)
                    requires
                        pow10((i + 1) as nat) == 10 * pow10(i as nat),
                ;
            }
            whole = whole * 10;
            i += 1;
        }
        proof {
            lemma_pow10_increases((m + zeros) as nat, 20);
        }
    } else if point > 0 {
        // The point stands among the digits.
        let split: usize = z + point as usize;
        whole = digits_value(digits, z, split);
        let mut i: usize = split;
        while i < digits.len()
            invariant
                split <= i <= digits@.len(),
                are_digits(digits@),
                are_digits(frac@),
                frac@ == digits@.subrange(split as int, i as int),
            decreases digits@.len() - i,
        {
            frac.push(digits[i]);
            proof {
                assert(frac@ =~= digits@.subrange(split as int, i + 1));
            }
            i += 1;
        }
        proof {
            let head = digits@.subrange(z as int, split as int);
            assert(sig =~= head + frac@);
            lemma_dec_value_concat(head, frac@);
            lemma_pow10_increases(point as nat, 20);
        }
    } else {
        // The point stands before the digits, with zeros between.
        whole = 0;
        let zeros: usize = (-point) as usize;
        let mut i: usize = 0;
        while i < zeros
            invariant
                i <= zeros,
                frac@.len() == i,
                forall|j: int| 0 <= j < i ==> frac@[j] == 0,
            decreases zeros - i,
        {
            frac.push(0);
            i += 1;
        }
        let mut j: usize = z;
        while j < digits.len()
            invariant
                z <= j <= digits@.len(),
                are_digits(digits@),
                are_digits(frac@),
                frac@.len() == zeros + (j - z),
                forall|a: int| 0 <= a < zeros ==> frac@[a] == 0,
                frac@.skip(zeros as int) == digits@.subrange(z as int, j as int),
            decreases digits@.len() - j,
        {
            let ghost before = frac@;
            frac.push(digits[j]);
            proof {
                assert(frac@.skip(zeros as int) =~= before.skip(zeros as int).push(
                    digits@[j as int],
                ));
                assert(frac@.skip(zeros as int) =~= digits@.subrange(z as int, j + 1));
            }
            j += 1;
        }
        proof {
            lemma_dec_value_leading_zeros(frac@, zeros as int);
            assert(0 * pow10(frac@.len()) == 0) by (nonlinear_arith);
        }
    }
    (whole, frac)
}

/// Multiplies the number `whole.frac` by two, `shift` times over.
pub(crate) fn shift_left(whole: u128, frac: Vec<u8>, shift: u32) -> (out: (u128, Vec<u8>))
    requires
        are_digits(frac@),
        whole < 100000000000000000000,
        shift <= MAX_SHIFT,
    ensures
        are_digits(out.1@),
        out.1@.len() == frac@.len(),
        mixed(out.0 as nat, out.1@) == pow2(shift as nat) * mixed(whole as nat, frac@),
{
    let ghost numerator = mixed(whole as nat, frac@);
    let ghost denominator = pow10(frac@.len());
    let ghost places = frac@.len();
    let mut whole = whole;
    let mut frac = frac;
    let mut i: u32 = 0;
    proof {
        lemma_powers();
        assert(pow2(0) * numerator == numerator) by (nonlinear_arith)
            requires
                pow2(0) == 1,
        ;
    }
    while i < shift
        invariant
            i <= shift <= MAX_SHIFT,
            are_digits(frac@),
            frac@.len() == places,
            pow10(frac@.len()) == denominator,
            pow2(i as nat) * numerator == mixed(whole as nat, frac@),
            whole < 100000000000000000000 * pow2(i as nat),
            pow2(40) == 0x10000000000,
        decreases shift - i,
    {
        let ghost w0 = whole;
        let ghost r0 = dec_value(frac@);
        proof {
            lemma_pow2_unfold((i + 1) as nat);
            lemma_pow2_strictly_increases(i as nat, 40);
            assert(100000000000000000000 * pow2(i as nat) <= 100000000000000000000 * 0x10000000000)
                by (nonlinear_arith)
                requires
                    pow2(i as nat) <= 0x10000000000,
            ;
        }
        let carry: u8 = double(&mut frac);
        whole = 2 * whole + carry as u128;
        proof {
            let a = pow2(i as nat) as int;
            let d = denominator as int;
            assert((2 * a) * numerator == (2 * w0 + carry) * d + dec_value(frac@))
                by (nonlinear_arith)
                requires
                    a * numerator == w0 * d + r0,
                    2 * r0 == carry * d + dec_value(frac@),
            ;
            assert(2 * w0 + carry < 100000000000000000000 * (2 * a)) by (nonlinear_arith)
                requires
                    w0 + 1 <= 100000000000000000000 * a,
                    carry <= 1,
            ;
        }
        i += 1;
    }
    (whole, frac)
}

/// The number `n * 10^k * 2^shift`, rounded as `scaled` says, where `n` is
/// what `digits` denote and `k` is the exponent, given by its sign and its
/// digits, less `frac_len`.
pub(crate) fn scale(
    digits: &Vec<u8>,
    frac_len: usize,
    exp_negative: bool,
    exp_digits: &Vec<u8>,
    shift: u32,
) -> (out: u64)
    requires
        are_digits(digits@),
        are_digits(exp_digits@),
        frac_len <= digits@.len(),
        shift <= MAX_SHIFT,
    ensures
        out == scaled(
            dec_value(digits@),
            signed(exp_negative, dec_value(exp_digits@)) - frac_len,
            shift as nat,
        ),
{
    let ghost n = dec_value(digits@);
    let ghost k = signed(exp_negative, dec_value(exp_digits@)) - frac_len;
    let ghost sh = shift as nat;
    // The first digit that is not zero.
    let mut z: usize = 0;
    while z < digits.len() && digits[z] == 0
        invariant
            z <= digits@.len(),
            forall|j: int| 0 <= j < z ==> digits@[j] == 0,
        decreases digits@.len() - z,
    {
        z += 1;
    }
    proof {
        lemma_dec_value_leading_zeros(digits@, z as int);
    }
    if z >= digits.len() {
        proof {
            assert(digits@.skip(z as int) =~= Seq::<u8>::empty());
            assert(n == 0);
            assert(n * pow10(k as nat) * pow2(sh) == 0 && n * pow2(sh) == 0) by (nonlinear_arith)
                requires
                    n == 0,
            ;
        }
        return 0;
    }
    let m: usize = digits.len() - z;
    let ghost sig = digits@.skip(z as int);
    proof {
        lemma_dec_value_leading(sig);
        lemma_dec_value_bound(sig);
    }
    // Where the decimal point stands, counted from the first digit that is
    // not zero.
    let e: u128 = capped_value(exp_digits);
    let point: i128 = if exp_negative {
        m as i128 - frac_len as i128 - e as i128
    } else {
        m as i128 - frac_len as i128 + e as i128
    };
    if point > 20 {
        proof {
            lemma_large(n, k, sh, m as nat);
        }
        return u64::MAX;
    }
    if point <= -13 {
        proof {
            lemma_small(n, k, sh, m as nat);
        }
        return 0;
    }
    assert(point == m + k);
    let (whole, frac) = cut_at_point(digits, z, point);
    let (whole, frac) = shift_left(whole, frac, shift);
    proof {
        lemma_powers();
        if k >= 0 {
            let t = n * pow10(k as nat);
            assert(mixed(t, Seq::<u8>::empty()) == t) by (nonlinear_arith)
                requires
                    mixed(t, Seq::<u8>::empty()) == t * pow10(0) + 0,
                    pow10(0) == 1,
            ;
            assert(frac@.len() == 0);
            assert(n * pow10(k as nat) * pow2(sh) == pow2(sh) * t) by (nonlinear_arith)
                requires
                    t == n * pow10(k as nat),
            ;
        } else {
            assert(n * pow2(sh) == pow2(sh) * n) by (nonlinear_arith);
        }
    }
    round53(whole, frac)
}

/// A number of more than twenty digits before the point does not fit in 64
/// bits.
pub proof fn lemma_large(n: nat, k: int, shift: nat, m: nat)
    requires
        m >= 1,
        pow10((m - 1) as nat) <= n,
        m + k > 20,
    ensures
        scaled(n, k, shift) == u64::MAX,
{
    lemma_powers();
    lemma_pow2_pos(shift);
    let s = pow2(shift) as int;
    let lo = pow10((m - 1) as nat) as int;
    lemma_pow10_positive((m - 1) as nat);
    if k >= 0 {
        let t = pow10(k as nat) as int;
        lemma_pow10_adds((m - 1) as nat, k as nat);
        lemma_pow10_increases(20, (m - 1 + k) as nat);
        let p = n * pow10(k as nat) * pow2(shift);
        assert(p >= lo * t) by (nonlinear_arith)
            requires
                p == n * t * s,
                n >= lo,
                s >= 1,
                t >= 0,
                lo >= 0,
        ;
        assert(pow2(64) * 1 == pow2(64));
        lemma_round53_large(p, 1);
    } else {
        let q = pow10((-k) as nat);
        lemma_pow10_positive((-k) as nat);
        lemma_pow10_adds((m - 1 + k) as nat, (-k) as nat);
        lemma_pow10_increases(20, (m - 1 + k) as nat);
        let hi = pow10((m - 1 + k) as nat) as int;
        let p = n * pow2(shift);
        assert(p >= pow2(64) * q) by (nonlinear_arith)
            requires
                p == n * s,
                n >= lo,
                lo == hi * q,
                hi >= pow2(64),
                s >= 1,
                q > 0,
        ;
        lemma_round53_large(p, q);
    }
}

/// A number that starts thirteen or more places after the point stays below
/// one half.
pub proof fn lemma_small(n: nat, k: int, shift: nat, m: nat)
    requires
        n < pow10(m),
        m + k <= -13,
        shift <= MAX_SHIFT,
    ensures
        scaled(n, k, shift) == 0,
{
    lemma_powers();
    lemma_pow2_pos(shift);
    if shift < 40 {
        lemma_pow2_strictly_increases(shift, 40);
    }
    let s = pow2(shift) as int;
    let q = pow10((-k) as nat) as int;
    let gap = (-k - m) as nat;
    lemma_pow10_adds(m, gap);
    lemma_pow10_increases(13, gap);
    let hi = pow10(m) as int;
    let g = pow10(gap) as int;
    let p = n * pow2(shift);
    assert(2 * p < q) by (nonlinear_arith)
        requires
            p == n * s,
            n + 1 <= hi,
            q == hi * g,
            g > 2 * s,
            s >= 1,
            n >= 0,
    ;
    lemma_round53_small(p, q as nat);
}

/// A number of bytes that is whole and has no more than 53 bits is read
/// exactly. If `n * 10^k * 2^shift` is the whole number `v`, stated here
/// without fractions, and `v` is below `2^53`, then `scaled` gives `v`.
pub proof fn lemma_scaled_exact(n: nat, k: int, shift: nat, v: nat)
    requires
        v < pow2(53),
        k >= 0 ==> n * pow10(k as nat) * pow2(shift) == v,
        k < 0 ==> n * pow2(shift) == v * pow10((-k) as nat),
    ensures
        scaled(n, k, shift) == v,
{
    vstd::arithmetic::power2::lemma2_to64_rest();
    if k >= 0 {
        assert(v * 1 == v);
        lemma_round53_exact(n * pow10(k as nat) * pow2(shift), 1, v);
    } else {
        lemma_pow10_positive((-k) as nat);
        lemma_round53_exact(n * pow2(shift), pow10((-k) as nat), v);
    }
}

} // verus!
