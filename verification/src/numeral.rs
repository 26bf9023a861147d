//! Decimal numerals with an optional fraction and exponent, and the words for
//! infinity and for what is not a number.

use vstd::prelude::*;
use vstd::slice::slice_subrange;
use crate::decimal::are_digits;
use crate::decimal::dec_value;
use crate::scale::scale;
use crate::scale::scaled;
use crate::scale::signed;
use crate::scale::MAX_SHIFT;
use crate::text::lemma_span_is;
use crate::text::span;

verus! {

/// What a numeral denotes.
pub enum Number {
    /// Not a number.
    NotANumber,
    /// Infinity, with its sign.
    Infinite { negative: bool },
    /// The number `mantissa * 10^power`, with its sign.
    Finite { negative: bool, mantissa: nat, power: int },
}

/// Whether `c` is a decimal digit.
pub open spec fn is_digit(c: char) -> bool {
    '0' <= c <= '9'
}

/// The predicate "is a decimal digit".
pub open spec fn decimal() -> spec_fn(char) -> bool {
    |c: char| is_digit(c)
}

/// The value of the decimal digit `c`.
pub open spec fn digit_of(c: char) -> u8 {
    (c as u32 - '0' as u32) as u8
}

/// The values of the decimal digits `s`.
pub open spec fn digits_of(s: Seq<char>) -> Seq<u8> {
    s.map_values(|c: char| digit_of(c))
}

/// Whether `c` is the lower-case letter `letter` or its upper-case form.
pub open spec fn same_letter(c: char, letter: char) -> bool {
    c == letter || c as u32 + 32 == letter as u32
}

/// Whether `s` is `word`, whatever the case of its letters. `word` is in
/// lower case.
pub open spec fn spells(s: Seq<char>, word: Seq<char>) -> bool {
    &&& s.len() == word.len()
    &&& forall|i: int| 0 <= i < s.len() ==> same_letter(#[trigger] s[i], word[i])
}

/// The length of the sign at the start of `s`: one or nothing.
pub open spec fn sign_len(s: Seq<char>) -> nat {
    if s.len() > 0 && (s[0] == '+' || s[0] == '-') {
        1
    } else {
        0
    }
}

/// Whether `s` starts with a minus sign.
pub open spec fn has_minus(s: Seq<char>) -> bool {
    s.len() > 0 && s[0] == '-'
}

/// What the exponent part `x` of a numeral denotes, the `e` before it left
/// out: a sign, or none, and then one or more digits.
pub open spec fn exponent(x: Seq<char>) -> Option<int> {
    let digits = x.skip(sign_len(x) as int);
    if digits.len() > 0 && span(digits, decimal()) == digits.len() {
        Some(signed(has_minus(x), dec_value(digits_of(digits))))
    } else {
        None
    }
}

/// The number of digits at the start of `body`, before a point.
pub open spec fn whole_len(body: Seq<char>) -> int {
    span(body, decimal()) as int
}

/// Whether a point follows the digits at the start of `body`.
pub open spec fn has_point(body: Seq<char>) -> bool {
    whole_len(body) < body.len() && body[whole_len(body)] == '.'
}

/// The number of digits after the point.
pub open spec fn frac_len(body: Seq<char>) -> int {
    if has_point(body) {
        span(body.skip(whole_len(body) + 1), decimal()) as int
    } else {
        0
    }
}

/// Where the digits and the point of `body` end.
pub open spec fn mantissa_end(body: Seq<char>) -> int {
    if has_point(body) {
        whole_len(body) + 1 + frac_len(body)
    } else {
        whole_len(body)
    }
}

/// The digits of `body` before and after the point, in one row.
pub open spec fn mantissa_digits(body: Seq<char>) -> Seq<u8> {
    digits_of(
        body.take(whole_len(body)) + (if has_point(body) {
            body.subrange(whole_len(body) + 1, mantissa_end(body))
        } else {
            seq![]
        }),
    )
}

/// What the numeral `s` denotes, if it is one.
///
/// A numeral is a sign, or none, and then one of the words `inf`, `infinity`
/// and `nan` in any case, or a number: digits with at most one point among,
/// before or after them, at least one digit in all, and then possibly `e` or
/// `E` with an exponent.
pub open spec fn numeral(s: Seq<char>) -> Option<Number> {
    let negative = has_minus(s);
    let body = s.skip(sign_len(s) as int);
    let end = mantissa_end(body);
    let mantissa = dec_value(mantissa_digits(body));
    if spells(body, seq!['i', 'n', 'f']) || spells(
        body,
        seq!['i', 'n', 'f', 'i', 'n', 'i', 't', 'y'],
    ) {
        Some(Number::Infinite { negative })
    } else if spells(body, seq!['n', 'a', 'n']) {
        Some(Number::NotANumber)
    } else if whole_len(body) + frac_len(body) == 0 {
        None
    } else if end == body.len() {
        Some(Number::Finite { negative, mantissa, power: -frac_len(body) })
    } else if body[end] == 'e' || body[end] == 'E' {
        match exponent(body.skip(end + 1)) {
            Some(e) => Some(Number::Finite { negative, mantissa, power: e - frac_len(body) }),
            None => None,
        }
    } else {
        None
    }
}

/// The number times `2^shift` as an unsigned integer of 64 bits, computed as
/// with binary64 numbers: the number is taken to the nearest binary64, the
/// product loses its fraction, what is negative or not a number becomes zero
/// and what is too large becomes the largest integer.
pub open spec fn magnitude(n: Number, shift: nat) -> u64 {
    match n {
        Number::NotANumber => 0,
        Number::Infinite { negative } => if negative {
            0
        } else {
            u64::MAX
        },
        Number::Finite { negative, mantissa, power } => if negative {
            0
        } else {
            scaled(mantissa, power, shift)
        },
    }
}

/// Whether `c` is the lower-case letter `letter` or its upper-case form.
pub(crate) fn is_letter(c: char, letter: char) -> (b: bool)
    requires
        'a' <= letter <= 'z',
    ensures
        b == same_letter(c, letter),
{
    c == letter || c as u32 + 32 == letter as u32
}

/// Whether `s` spells `inf`.
pub(crate) fn is_inf(s: &[char]) -> (b: bool)
    ensures
        b == spells(s@, seq!['i', 'n', 'f']),
{
    s.len() == 3 && is_letter(s[0], 'i') && is_letter(s[1], 'n') && is_letter(s[2], 'f')
}

/// Whether `s` spells `infinity`.
pub(crate) fn is_infinity(s: &[char]) -> (b: bool)
    ensures
        b == spells(s@, seq!['i', 'n', 'f', 'i', 'n', 'i', 't', 'y']),
{
    s.len() == 8 && is_letter(s[0], 'i') && is_letter(s[1], 'n') && is_letter(s[2], 'f')
        && is_letter(s[3], 'i') && is_letter(s[4], 'n') && is_letter(s[5], 'i') && is_letter(
        s[6],
        't',
    ) && is_letter(s[7], 'y')
}

/// Whether `s` spells `nan`.
pub(crate) fn is_nan(s: &[char]) -> (b: bool)
    ensures
        b == spells(s@, seq!['n', 'a', 'n']),
{
    s.len() == 3 && is_letter(s[0], 'n') && is_letter(s[1], 'a') && is_letter(s[2], 'n')
}

/// The first position at or after `from` that holds no decimal digit, or the
/// length of `s` if there is none.
pub(crate) fn scan_digits(s: &[char], from: usize) -> (to: usize)
    requires
        from <= s@.len(),
    ensures
        from <= to <= s@.len(),
        to - from == span(s@.skip(from as int), decimal()),
        forall|j: int| from <= j < to ==> is_digit(#[trigger] s@[j]),
{
    let mut i: usize = from;
    while i < s.len() && '0' <= s[i] && s[i] <= '9'
        invariant
            from <= i <= s@.len(),
            forall|j: int| from <= j < i ==> is_digit(#[trigger] s@[j]),
        decreases s@.len() - i,
    {
        i += 1;
    }
    proof {
        let rest = s@.skip(from as int);
        assert forall|j: int| 0 <= j < i - from implies decimal()(#[trigger] rest[j]) by {
            assert(rest[j] == s@[from + j]);
        }
        lemma_span_is(rest, decimal(), (i - from) as nat);
    }
    i
}

/// Appends to `out` the values of the digits of `s` from `from` up to `to`.
pub(crate) fn push_digits(out: &mut Vec<u8>, s: &[char], from: usize, to: usize)
    requires
        from <= to <= s@.len(),
        forall|j: int| from <= j < to ==> is_digit(#[trigger] s@[j]),
        are_digits(old(out)@),
    ensures
        final(out)@ == old(out)@ + digits_of(s@.subrange(from as int, to as int)),
        are_digits(final(out)@),
{
    let ghost before = out@;
    let mut i: usize = from;
    proof {
        assert(out@ =~= before + digits_of(s@.subrange(from as int, i as int)));
    }
    while i < to
        invariant
            from <= i <= to <= s@.len(),
            forall|j: int| from <= j < to ==> is_digit(#[trigger] s@[j]),
            out@ == before + digits_of(s@.subrange(from as int, i as int)),
            are_digits(out@),
        decreases to - i,
    {
        let c: char = s[i];
        assert(is_digit(s@[i as int]));
        let d: u8 = (c as u32 - '0' as u32) as u8;
        out.push(d);
        proof {
            assert(out@ =~= before + digits_of(s@.subrange(from as int, i + 1)));
        }
        i += 1;
    }
}

/// Reads the digits and the point at the start of `body`: the values of the
/// digits, how many of them stand after the point, and where they end.
pub(crate) fn read_mantissa(body: &[char]) -> (out: (Vec<u8>, usize, usize))
    ensures
        out.0@ == mantissa_digits(body@),
        are_digits(out.0@),
        out.1 == frac_len(body@),
        out.2 == mantissa_end(body@),
        out.1 <= out.0@.len(),
        out.2 <= body@.len(),
        out.0@.len() == whole_len(body@) + frac_len(body@),
{
    proof {
        assert(body@.skip(0) =~= body@);
    }
    let i: usize = scan_digits(body, 0);
    let mut digits: Vec<u8> = Vec::new();
    push_digits(&mut digits, body, 0, i);
    let point: bool = i < body.len() && body[i] == '.';
    let mut end: usize = i;
    if point {
        end = scan_digits(body, i + 1);
        push_digits(&mut digits, body, i + 1, end);
    }
    let f: usize = if point {
        end - i - 1
    } else {
        0
    };
    proof {
        assert(body@.subrange(0, i as int) =~= body@.take(i as int));
        let spelled = body@.take(i as int) + (if point {
            body@.subrange(i + 1, end as int)
        } else {
            seq![]
        });
        assert(digits@ =~= digits_of(spelled));
    }
    (digits, f, end)
}

/// Reads the exponent part `x` of a numeral, the `e` before it left out:
/// whether it is negative, and the values of its digits.
pub(crate) fn read_exponent(x: &[char]) -> (out: Option<(bool, Vec<u8>)>)
    ensures
        out is Some <==> exponent(x@) is Some,
        out matches Some(e) ==> are_digits(e.1@) && exponent(x@) == Some(
            signed(e.0, dec_value(e.1@)),
        ),
{
    let x_signed: bool = x.len() > 0 && (x[0] == '+' || x[0] == '-');
    let negative: bool = x.len() > 0 && x[0] == '-';
    let from: usize = if x_signed {
        1
    } else {
        0
    };
    let to: usize = scan_digits(x, from);
    if to == from || to < x.len() {
        return None;
    }
    let mut digits: Vec<u8> = Vec::new();
    push_digits(&mut digits, x, from, to);
    proof {
        assert(x@.subrange(from as int, to as int) =~= x@.skip(from as int));
    }
    Some((negative, digits))
}

/// What the numeral `s` denotes, times `2^shift`, as `magnitude` says, if `s`
/// is a numeral.
pub(crate) fn numeral_magnitude(s: &[char], shift: u32) -> (out: Option<u64>)
    requires
        shift <= MAX_SHIFT,
    ensures
        out == match numeral(s@) {
            Some(n) => Some(magnitude(n, shift as nat)),
            None => None,
        },
{
    let signed_start: bool = s.len() > 0 && (s[0] == '+' || s[0] == '-');
    let negative: bool = s.len() > 0 && s[0] == '-';
    let start: usize = if signed_start {
        1
    } else {
        0
    };
    let body = slice_subrange(s, start, s.len());
    proof {
        assert(body@ =~= s@.skip(sign_len(s@) as int));
    }
    if is_inf(body) || is_infinity(body) {
        return Some(
            if negative {
                0
            } else {
                u64::MAX
            },
        );
    }
    if is_nan(body) {
        return Some(0);
    }
    let (digits, f, end) = read_mantissa(body);
    if digits.len() == 0 {
        return None;
    }
    if end == body.len() {
        if negative {
            return Some(0);
        }
        let none: Vec<u8> = Vec::new();
        assert(dec_value(none@) == 0);
        return Some(scale(&digits, f, false, &none, shift));
    }
    if body[end] != 'e' && body[end] != 'E' {
        return None;
    }
    let tail = slice_subrange(body, end + 1, body.len());
    proof {
        assert(tail@ =~= body@.skip(end + 1));
    }
    match read_exponent(tail) {
        None => None,
        Some((exp_negative, exp_digits)) => {
            if negative {
                Some(0)
            } else {
                Some(scale(&digits, f, exp_negative, &exp_digits, shift))
            }
        },
    }
}

} // verus!
