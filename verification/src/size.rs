//! Sizes as people write them: a number and a unit, `4,00kb`.

use vstd::prelude::*;
use vstd::slice::slice_subrange;
use crate::numeral::magnitude;
use crate::numeral::numeral;
use crate::numeral::numeral_magnitude;
use crate::scale::MAX_SHIFT;
use crate::text::chars_of;
use crate::text::string_of;
use crate::text::trim;
use crate::text::trimmed;

verus! {

/// Why a size could not be read. Either way nothing that is computed from the
/// report would be reliable: whoever gets this error is to stop.
#[derive(Debug, Clone, Copy, PartialEq, Eq, Structural)]
pub enum SizeError {
    /// The last two characters of the size are none of the known units.
    UnknownUnit,
    /// The unit is known, and what stands before it is not a number.
    InvalidNumber,
}

/// The power of two that the unit `a b` stands for: kilobytes, megabytes,
/// gigabytes and terabytes, in any case. The Kelvin sign counts as a `k`, as
/// it does when text is put in lower case.
pub open spec fn unit_shift(a: char, b: char) -> Option<nat> {
    if b != 'b' && b != 'B' {
        None
    } else if a == 'k' || a == 'K' || a == '\u{212A}' {
        Some(10)
    } else if a == 'm' || a == 'M' {
        Some(20)
    } else if a == 'g' || a == 'G' {
        Some(30)
    } else if a == 't' || a == 'T' {
        Some(40)
    } else {
        None
    }
}

/// `s` with a point for each comma.
pub open spec fn with_points(s: Seq<char>) -> Seq<char> {
    s.map_values(
        |c: char|
            if c == ',' {
                '.'
            } else {
                c
            },
    )
}

/// The number of bytes that the size `s` stands for.
///
/// Commas count as decimal points, and white space around the size is
/// ignored. The last two characters are the unit, and all before them is the
/// number. The number of bytes is computed as with binary64 numbers, see
/// `magnitude`.
pub open spec fn human_size(s: Seq<char>) -> Result<u64, SizeError> {
    let t = trim(with_points(s));
    if t.len() < 2 {
        Err(SizeError::UnknownUnit)
    } else {
        match unit_shift(t[t.len() - 2], t[t.len() - 1]) {
            None => Err(SizeError::UnknownUnit),
            Some(shift) => match numeral(t.take(t.len() - 2)) {
                None => Err(SizeError::InvalidNumber),
                Some(n) => Ok(magnitude(n, shift)),
            },
        }
    }
}

/// The power of two that the unit `a b` stands for.
pub fn unit_of(a: char, b: char) -> (shift: Option<u32>)
    ensures
        match shift {
            Some(v) => v <= MAX_SHIFT && unit_shift(a, b) == Some(v as nat),
            None => unit_shift(a, b) is None,
        },
{
    if b != 'b' && b != 'B' {
        None
    } else if a == 'k' || a == 'K' || a == '\u{212A}' {
        Some(10)
    } else if a == 'm' || a == 'M' {
        Some(20)
    } else if a == 'g' || a == 'G' {
        Some(30)
    } else if a == 't' || a == 'T' {
        Some(40)
    } else {
        None
    }
}

/// The number of bytes that the size `token` stands for.
pub fn size_of(token: &[char]) -> (out: Result<u64, SizeError>)
    ensures
        out == human_size(token@),
{
    let mut pointed: Vec<char> = Vec::new();
    let mut i: usize = 0;
    while i < token.len()
        invariant
            i <= token@.len(),
            pointed@ == with_points(token@.take(i as int)),
        decreases token@.len() - i,
    {
        let c: char = token[i];
        pointed.push(
            if c == ',' {
                '.'
            } else {
                c
            },
        );
        proof {
            assert(pointed@ =~= with_points(token@.take(i + 1)));
        }
        i += 1;
    }
    proof {
        assert(token@.take(i as int) =~= token@);
    }
    let t = trimmed(pointed.as_slice());
    let len: usize = t.len();
    if len < 2 {
        return Err(SizeError::UnknownUnit);
    }
    match unit_of(t[len - 2], t[len - 1]) {
        None => Err(SizeError::UnknownUnit),
        Some(shift) => {
            let number = slice_subrange(t, 0, len - 2);
            proof {
                assert(number@ =~= t@.take(len - 2));
            }
            match numeral_magnitude(number, shift) {
                None => Err(SizeError::InvalidNumber),
                Some(bytes) => Ok(bytes),
            }
        },
    }
}

/// Reads a size such as `4,00kb` as a number of bytes.
pub fn parse_human_readable_size(size: &str) -> (out: Result<u64, SizeError>)
    ensures
        out == human_size(size@),
{
    let chars = chars_of(size);
    size_of(chars.as_slice())
}

/// The decimal digit for `d`.
pub open spec fn digit_char(d: nat) -> char {
    if d == 0 {
        '0'
    } else if d == 1 {
        '1'
    } else if d == 2 {
        '2'
    } else if d == 3 {
        '3'
    } else if d == 4 {
        '4'
    } else if d == 5 {
        '5'
    } else if d == 6 {
        '6'
    } else if d == 7 {
        '7'
    } else if d == 8 {
        '8'
    } else {
        '9'
    }
}

/// The decimal numeral for `n`, without leading zeros.
pub open spec fn decimal_text(n: nat) -> Seq<char>
    decreases n,
{
    if n < 10 {
        seq![digit_char(n)]
    } else {
        decimal_text(n / 10).push(digit_char(n % 10))
    }
}

/// The largest of the units B, KB, MB, GB and TB, counted from zero, that
/// `bytes` holds at least once.
pub open spec fn unit_index(bytes: u64) -> nat {
    if bytes < 0x400 {
        0
    } else if bytes < 0x100000 {
        1
    } else if bytes < 0x40000000 {
        2
    } else if bytes < 0x10000000000 {
        3
    } else {
        4
    }
}

/// The number of bytes in the unit with index `k`.
pub open spec fn unit_bytes(k: nat) -> nat {
    if k == 0 {
        1
    } else if k == 1 {
        0x400
    } else if k == 2 {
        0x100000
    } else if k == 3 {
        0x40000000
    } else {
        0x10000000000
    }
}

/// The name of the unit with index `k`.
pub open spec fn unit_name(k: nat) -> Seq<char> {
    if k == 0 {
        seq!['B']
    } else if k == 1 {
        seq!['K', 'B']
    } else if k == 2 {
        seq!['M', 'B']
    } else if k == 3 {
        seq!['G', 'B']
    } else {
        seq!['T', 'B']
    }
}

/// A number of bytes for people to read: how many whole units the largest
/// fitting unit goes into it, and the unit's name, with nothing between.
pub open spec fn human_readable(bytes: u64) -> Seq<char> {
    decimal_text(bytes as nat / unit_bytes(unit_index(bytes))) + unit_name(unit_index(bytes))
}

/// Appends the decimal numeral for `n` to `out`.
pub fn push_decimal(out: &mut Vec<char>, n: u64)
    ensures
        final(out)@ == old(out)@ + decimal_text(n as nat),
    decreases n,
{
    if n >= 10 {
        push_decimal(out, n / 10);
    }
    let d: u64 = n % 10;
    let c: char = if d == 0 {
        '0'
    } else if d == 1 {
        '1'
    } else if d == 2 {
        '2'
    } else if d == 3 {
        '3'
    } else if d == 4 {
        '4'
    } else if d == 5 {
        '5'
    } else if d == 6 {
        '6'
    } else if d == 7 {
        '7'
    } else if d == 8 {
        '8'
    } else {
        '9'
    };
    out.push(c);
    proof {
        if n >= 10 {
            assert(final(out)@ =~= old(out)@ + decimal_text(n as nat));
        } else {
            assert(final(out)@ =~= old(out)@ + decimal_text(n as nat));
        }
    }
}

/// Writes a number of bytes for people to read, such as `1KB` for 1500.
pub fn bytes_to_human_readable(bytes: u64) -> (out: String)
    ensures
        out@ == human_readable(bytes),
{
    let mut text: Vec<char> = Vec::new();
    let ghost k = unit_index(bytes);
    if bytes < 0x400 {
        push_decimal(&mut text, bytes);
        text.push('B');
    } else if bytes < 0x100000 {
        push_decimal(&mut text, bytes / 0x400);
        text.push('K');
        text.push('B');
    } else if bytes < 0x40000000 {
        push_decimal(&mut text, bytes / 0x100000);
        text.push('M');
        text.push('B');
    } else if bytes < 0x10000000000 {
        push_decimal(&mut text, bytes / 0x40000000);
        text.push('G');
        text.push('B');
    } else {
        push_decimal(&mut text, bytes / 0x10000000000);
        text.push('T');
        text.push('B');
    }
    proof {
        assert(text@ =~= human_readable(bytes));
    }
    string_of(text.as_slice())
}

} // verus!
