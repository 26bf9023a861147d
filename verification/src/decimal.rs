//! Strings of decimal digits as numbers of any length.

use vstd::prelude::*;

verus! {

/// Ten to the power `n`.
pub open spec fn pow10(n: nat) -> nat
    decreases n,
{
    if n == 0 {
        1
    } else {
        10 * pow10((n - 1) as nat)
    }
}

/// A power of ten is at least one.
pub proof fn lemma_pow10_positive(n: nat)
    ensures
        pow10(n) >= 1,
    decreases n,
{
    if n > 0 {
        lemma_pow10_positive((n - 1) as nat);
    }
}

/// Exponents add when powers of ten are multiplied.
pub proof fn lemma_pow10_adds(a: nat, b: nat)
    ensures
        pow10(a + b) == pow10(a) * pow10(b),
    decreases a,
{
    if a > 0 {
        lemma_pow10_adds((a - 1) as nat, b);
        let x = pow10((a - 1) as nat);
        let y = pow10(b);
        assert(((a + b) - 1) as nat == (a - 1) as nat + b);
        assert(pow10(a + b) == 10 * pow10(((a + b) - 1) as nat));
        assert(pow10(a + b) == 10 * (x * y));
        assert(pow10(a) == 10 * x);
        assert(10 * (x * y) == pow10(a) * y) by (nonlinear_arith)
            requires
                pow10(a) == 10 * x,
        ;
    } else {
        assert(pow10(a) * pow10(b) == pow10(b)) by (nonlinear_arith)
            requires
                pow10(a) == 1,
        ;
    }
}

/// A larger exponent gives no smaller a power of ten.
pub proof fn lemma_pow10_increases(a: nat, b: nat)
    requires
        a <= b,
    ensures
        pow10(a) <= pow10(b),
    decreases b,
{
    if a < b {
        lemma_pow10_increases(a, (b - 1) as nat);
    }
}

/// Whether every element of `ds` is a decimal digit.
pub open spec fn are_digits(ds: Seq<u8>) -> bool {
    forall|i: int| 0 <= i < ds.len() ==> #[trigger] ds[i] <= 9
}

/// The number that the decimal digits `ds` denote, most significant first.
pub open spec fn dec_value(ds: Seq<u8>) -> nat
    decreases ds.len(),
{
    if ds.len() == 0 {
        0
    } else {
        10 * dec_value(ds.drop_last()) + ds.last() as nat
    }
}

/// A numeral of `n` digits denotes a number below ten to the `n`.
pub proof fn lemma_dec_value_bound(ds: Seq<u8>)
    requires
        are_digits(ds),
    ensures
        dec_value(ds) < pow10(ds.len()),
    decreases ds.len(),
{
    if ds.len() > 0 {
        lemma_dec_value_bound(ds.drop_last());
    }
}

/// The value of two numerals written one after the other.
pub proof fn lemma_dec_value_concat(a: Seq<u8>, b: Seq<u8>)
    ensures
        dec_value(a + b) == dec_value(a) * pow10(b.len()) + dec_value(b),
    decreases b.len(),
{
    if b.len() == 0 {
        assert(a + b =~= a);
        assert(dec_value(a) * pow10(b.len()) == dec_value(a)) by (nonlinear_arith)
            requires
                pow10(b.len()) == 1,
        ;
    } else {
        let b0 = b.drop_last();
        lemma_dec_value_concat(a, b0);
        assert((a + b).drop_last() =~= a + b0);
        assert((a + b).last() == b.last());
        let x = dec_value(a);
        let p = pow10(b0.len());
        assert(pow10(b.len()) == 10 * p);
        assert(dec_value(a + b) == 10 * (x * p + dec_value(b0)) + b.last());
        assert(10 * (x * p) == x * pow10(b.len())) by (nonlinear_arith)
            requires
                pow10(b.len()) == 10 * p,
        ;
    }
}

/// The value of a numeral in terms of its first digit and the rest.
pub proof fn lemma_dec_value_first(ds: Seq<u8>)
    requires
        ds.len() > 0,
    ensures
        dec_value(ds) == ds[0] * pow10((ds.len() - 1) as nat) + dec_value(ds.drop_first()),
{
    let head = seq![ds[0]];
    assert(ds =~= head + ds.drop_first());
    lemma_dec_value_concat(head, ds.drop_first());
    assert(head.drop_last() =~= Seq::<u8>::empty());
    assert(dec_value(head.drop_last()) == 0);
    assert(dec_value(head) == ds[0]);
}

/// A numeral that starts with a digit other than zero denotes a number of at
/// least ten to the number of digits that follow.
pub proof fn lemma_dec_value_leading(ds: Seq<u8>)
    requires
        ds.len() > 0,
        ds[0] >= 1,
    ensures
        dec_value(ds) >= pow10((ds.len() - 1) as nat),
{
    lemma_dec_value_first(ds);
    let p = pow10((ds.len() - 1) as nat);
    let d = ds[0] as int;
    assert(d * p >= p) by (nonlinear_arith)
        requires
            d >= 1,
            p >= 0,
    ;
}

/// Zeros in front of a numeral do not change what it denotes.
pub proof fn lemma_dec_value_leading_zeros(ds: Seq<u8>, z: int)
    requires
        0 <= z <= ds.len(),
        forall|i: int| 0 <= i < z ==> #[trigger] ds[i] == 0,
    ensures
        dec_value(ds) == dec_value(ds.skip(z)),
    decreases z,
{
    if z > 0 {
        lemma_dec_value_first(ds);
        let rest = ds.drop_first();
        assert forall|i: int| 0 <= i < z - 1 implies #[trigger] rest[i] == 0 by {
            assert(rest[i] == ds[i + 1]);
        }
        lemma_dec_value_leading_zeros(rest, z - 1);
        assert(rest.skip(z - 1) =~= ds.skip(z));
        assert(0 * pow10((ds.len() - 1) as nat) == 0);
    } else {
        assert(ds.skip(0) =~= ds);
    }
}

/// Doubles the number that `ds` denotes, keeping the number of digits: the
/// digit that no longer fits is handed back.
pub(crate) fn double(ds: &mut Vec<u8>) -> (carry: u8)
    requires
        are_digits(old(ds)@),
    ensures
        are_digits(final(ds)@),
        final(ds)@.len() == old(ds)@.len(),
        carry <= 1,
        2 * dec_value(old(ds)@) == carry * pow10(old(ds)@.len()) + dec_value(final(ds)@),
{
    let ghost before = ds@;
    let ghost len = ds@.len();
    let mut carry: u8 = 0;
    let mut i: usize = ds.len();
    proof {
        assert(before.skip(i as int) =~= Seq::<u8>::empty());
    }
    while i > 0
        invariant
            i <= len,
            ds@.len() == len,
            before.len() == len,
            are_digits(before),
            are_digits(ds@),
            carry <= 1,
            forall|j: int| 0 <= j < i ==> ds@[j] == before[j],
            2 * dec_value(before.skip(i as int)) == carry * pow10((len - i) as nat) + dec_value(
                ds@.skip(i as int),
            ),
        decreases i,
    {
        i -= 1;
        let ghost prev = ds@;
        let ghost c0 = carry;
        let d: u8 = ds[i];
        let t: u8 = 2 * d + carry;
        if t >= 10 {
            ds[i] = t - 10;
            carry = 1;
        } else {
            ds[i] = t;
            carry = 0;
        }
        proof {
            let p = pow10((len - i - 1) as nat);
            let old_tail = before.skip(i as int);
            let new_tail = ds@.skip(i as int);
            lemma_dec_value_first(old_tail);
            lemma_dec_value_first(new_tail);
            assert(old_tail.drop_first() =~= before.skip(i + 1));
            assert(new_tail.drop_first() =~= prev.skip(i + 1));
            let b = dec_value(before.skip(i + 1)) as int;
            let n = dec_value(prev.skip(i + 1)) as int;
            let di = d as int;
            let ci = c0 as int;
            let ri = ds@[i as int] as int;
            let ki = carry as int;
            assert(2 * di + ci == 10 * ki + ri);
            assert(2 * b == ci * p + n);
            assert(2 * (di * p + b) == ki * (10 * p) + (ri * p + n)) by (nonlinear_arith)
                requires
                    2 * di + ci == 10 * ki + ri,
                    2 * b == ci * p + n,
            ;
        }
    }
    proof {
        assert(before.skip(0) =~= before);
        assert(ds@.skip(0) =~= ds@);
    }
    carry
}

/// Whether every element of `ds` is zero.
pub(crate) fn is_zero(ds: &Vec<u8>) -> (zero: bool)
    requires
        are_digits(ds@),
    ensures
        zero == (dec_value(ds@) == 0),
{
    let mut i: usize = 0;
    while i < ds.len()
        invariant
            i <= ds@.len(),
            forall|j: int| 0 <= j < i ==> ds@[j] == 0,
        decreases ds@.len() - i,
    {
        if ds[i] != 0 {
            proof {
                lemma_dec_value_leading_zeros(ds@, i as int);
                lemma_dec_value_leading(ds@.skip(i as int));
                lemma_pow10_positive((ds@.len() - i - 1) as nat);
            }
            return false;
        }
        i += 1;
    }
    proof {
        lemma_dec_value_leading_zeros(ds@, ds@.len() as int);
        assert(ds@.skip(ds@.len() as int) =~= Seq::<u8>::empty());
    }
    true
}

} // verus!
