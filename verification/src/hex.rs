//! Hexadecimal numbers as the debuggers print them.

use vstd::prelude::*;
use crate::text::chars_of;
use crate::text::other_than;

verus! {

/// The mark that the native debugger puts between the two halves of a 64-bit
/// number.
pub const GROUPING_MARK: char = '`';

/// Whether `c` is a hexadecimal digit, in either case.
pub open spec fn is_hex_digit(c: char) -> bool {
    ||| '0' <= c <= '9'
    ||| 'a' <= c <= 'f'
    ||| 'A' <= c <= 'F'
}

/// The value of the hexadecimal digit `c`.
pub open spec fn hex_digit_value(c: char) -> nat {
    if '0' <= c <= '9' {
        (c as u32 - '0' as u32) as nat
    } else if 'a' <= c <= 'f' {
        (c as u32 - 'a' as u32 + 10) as nat
    } else {
        (c as u32 - 'A' as u32 + 10) as nat
    }
}

/// The number that the hexadecimal digits `s` denote.
pub open spec fn hex_value(s: Seq<char>) -> nat
    decreases s.len(),
{
    if s.len() == 0 {
        0
    } else {
        16 * hex_value(s.drop_last()) + hex_digit_value(s.last())
    }
}

/// `s` without its grouping marks.
pub open spec fn ungrouped(s: Seq<char>) -> Seq<char> {
    s.filter(other_than(GROUPING_MARK))
}

/// `s` without a plus sign at its start.
pub open spec fn unsigned_part(s: Seq<char>) -> Seq<char> {
    if s.len() > 0 && s[0] == '+' {
        s.drop_first()
    } else {
        s
    }
}

/// Whether `s` is one or more hexadecimal digits.
pub open spec fn is_hex_numeral(s: Seq<char>) -> bool {
    &&& s.len() > 0
    &&& forall|i: int| 0 <= i < s.len() ==> is_hex_digit(#[trigger] s[i])
}

/// The number that the token `s` stands for. Grouping marks are ignored. What
/// is left must be hexadecimal digits, possibly after a plus sign, and denote
/// a number that fits in 64 bits: any other token stands for zero.
pub open spec fn hex_number(s: Seq<char>) -> u64 {
    let digits = unsigned_part(ungrouped(s));
    if is_hex_numeral(digits) && hex_value(digits) <= u64::MAX {
        hex_value(digits) as u64
    } else {
        0
    }
}

/// A longer numeral denotes no smaller a number than its prefixes.
pub proof fn lemma_hex_value_prefix(s: Seq<char>, k: int)
    requires
        0 <= k <= s.len(),
    ensures
        hex_value(s.take(k)) <= hex_value(s),
    decreases s.len(),
{
    if k < s.len() {
        lemma_hex_value_prefix(s.drop_last(), k);
        assert(s.drop_last().take(k) =~= s.take(k));
    } else {
        assert(s.take(k) =~= s);
    }
}

/// The value of `c` if it is a hexadecimal digit.
pub fn hex_digit(c: char) -> (d: Option<u64>)
    ensures
        d is Some <==> is_hex_digit(c),
        d is Some ==> d->0 == hex_digit_value(c) && d->0 < 16,
{
    let u: u32 = c as u32;
    if 0x30 <= u && u <= 0x39 {
        Some((u - 0x30) as u64)
    } else if 0x61 <= u && u <= 0x66 {
        Some((u - 0x61 + 10) as u64)
    } else if 0x41 <= u && u <= 0x46 {
        Some((u - 0x41 + 10) as u64)
    } else {
        None
    }
}

/// `s` without its grouping marks.
pub fn strip_grouping(s: &[char]) -> (out: Vec<char>)
    ensures
        out@ == ungrouped(s@),
{
    let mut out: Vec<char> = Vec::new();
    let mut i: usize = 0;
    while i < s.len()
        invariant
            i <= s@.len(),
            out@ == ungrouped(s@.take(i as int)),
        decreases s@.len() - i,
    {
        proof {
            reveal(Seq::filter);
            assert(s@.take(i + 1).drop_last() =~= s@.take(i as int));
        }
        if s[i] != GROUPING_MARK {
            out.push(s[i]);
        }
        i += 1;
    }
    proof {
        assert(s@.take(i as int) =~= s@);
    }
    out
}

/// The number that the token `s` stands for.
pub fn hex_of(s: &[char]) -> (n: u64)
    ensures
        n == hex_number(s@),
{
    let t = strip_grouping(s);
    let start: usize = if t.len() > 0 && t[0] == '+' {
        1
    } else {
        0
    };
    let ghost digits = unsigned_part(t@);
    proof {
        assert(digits =~= t@.skip(start as int));
    }
    if start >= t.len() {
        return 0;
    }
    let mut acc: u64 = 0;
    let mut i: usize = start;
    while i < t.len()
        invariant
            start <= i <= t@.len(),
            digits == t@.skip(start as int),
            digits == unsigned_part(t@),
            t@ == ungrouped(s@),
            acc == hex_value(digits.take(i - start)),
            forall|j: int| 0 <= j < i - start ==> is_hex_digit(#[trigger] digits[j]),
        decreases t@.len() - i,
    {
        let ghost k = i - start;
        proof {
            assert(digits.take(k + 1).drop_last() =~= digits.take(k));
            assert(digits.take(k + 1).last() == t@[i as int]);
            lemma_hex_value_prefix(digits, k + 1);
        }
        match hex_digit(t[i]) {
            None => {
                proof {
                    assert(!is_hex_digit(digits[k]));
                }
                return 0;
            },
            Some(d) => {
                if acc > (u64::MAX - d) / 16 {
                    proof {
                        assert(hex_value(digits.take(k + 1)) == 16 * acc + d);
                        assert(16 * acc + d > u64::MAX);
                    }
                    return 0;
                }
                acc = 16 * acc + d;
            },
        }
        i += 1;
    }
    proof {
        assert(digits.take(i - start) =~= digits);
    }
    acc
}

/// Reads a hexadecimal number, such as an address. Grouping marks are
/// ignored; a token that is not a number that fits in 64 bits reads as zero.
pub fn parse_hex(hex_str: &str) -> (n: u64)
    ensures
        n == hex_number(hex_str@),
{
    let chars = chars_of(hex_str);
    hex_of(chars.as_slice())
}

} // verus!
