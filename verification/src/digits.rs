//! Decimal digit strings: the value of a digit sequence, the canonical digit
//! sequence of a number, zero padding, and the executable conversions.

use vstd::prelude::*;

verus! {

/// `b` is the code of a decimal digit.
pub open spec fn is_digit(b: u8) -> bool {
    48 <= b <= 57
}

/// Every byte of `s` is a decimal digit.
pub open spec fn all_digits(s: Seq<u8>) -> bool {
    forall|i: int| 0 <= i < s.len() ==> is_digit(s[i])
}

/// The numeric value of a digit sequence, most significant digit first.
pub open spec fn digits_val(s: Seq<u8>) -> nat
    recommends
        all_digits(s),
    decreases s.len(),
{
    if s.len() == 0 {
        0
    } else {
        digits_val(s.drop_last()) * 10 + (s.last() - 48) as nat
    }
}

/// The canonical decimal digit sequence of `n`: no leading zeros, `"0"` for 0.
pub open spec fn decimal_digits(n: nat) -> Seq<u8>
    decreases n,
{
    if n < 10 {
        seq![(48 + n) as u8]
    } else {
        decimal_digits(n / 10).push((48 + n % 10) as u8)
    }
}

/// `s` left-padded with zero digits to width `w` (unchanged when already wide enough).
pub open spec fn zero_pad(s: Seq<u8>, w: nat) -> Seq<u8> {
    if s.len() >= w {
        s
    } else {
        Seq::new((w - s.len()) as nat, |i: int| 48u8) + s
    }
}

/// The canonical digit sequence of `n` is nonempty and holds digits only,
/// with no leading zero unless `n` itself is 0.
pub proof fn lemma_decimal_digits_wf(n: nat)
    ensures
        decimal_digits(n).len() >= 1,
        all_digits(decimal_digits(n)),
        n >= 10 ==> decimal_digits(n).len() >= 2,
        decimal_digits(n)[0] == 48 ==> n == 0,
    decreases n,
{
    if n >= 10 {
        lemma_decimal_digits_wf(n / 10);
    }
}

/// Reading back the canonical digit sequence of `n` yields `n`.
pub proof fn lemma_digits_val_decimal(n: nat)
    ensures
        digits_val(decimal_digits(n)) == n,
    decreases n,
{
    if n < 10 {
        assert(decimal_digits(n).drop_last() =~= Seq::<u8>::empty());
        assert(digits_val(decimal_digits(n).drop_last()) == 0);
        assert(decimal_digits(n).last() == (48 + n) as u8);
    } else {
        lemma_digits_val_decimal(n / 10);
        assert(decimal_digits(n).drop_last() =~= decimal_digits(n / 10));
        assert(decimal_digits(n).last() == (48 + n % 10) as u8);
    }
}

/// Prepending one zero digit does not change the value.
pub proof fn lemma_digits_val_prepend_zero(s: Seq<u8>)
    ensures
        digits_val(seq![48u8] + s) == digits_val(s),
    decreases s.len(),
{
    if s.len() == 0 {
        let one = seq![48u8] + s;
        assert(one.drop_last() =~= Seq::<u8>::empty());
        assert(digits_val(one.drop_last()) == 0);
        assert(one.last() == 48);
    } else {
        lemma_digits_val_prepend_zero(s.drop_last());
        assert((seq![48u8] + s).drop_last() =~= seq![48u8] + s.drop_last());
        assert((seq![48u8] + s).last() == s.last());
    }
}

/// Zero padding keeps the value and the all-digits shape, and reaches width `w`.
pub proof fn lemma_zero_pad(s: Seq<u8>, w: nat)
    requires
        all_digits(s),
    ensures
        digits_val(zero_pad(s, w)) == digits_val(s),
        all_digits(zero_pad(s, w)),
        zero_pad(s, w).len() == if s.len() >= w { s.len() } else { w },
    decreases w,
{
    if s.len() < w {
        lemma_zero_pad(s, (w - 1) as nat);
        assert(zero_pad(s, w) =~= seq![48u8] + zero_pad(s, (w - 1) as nat));
        lemma_digits_val_prepend_zero(zero_pad(s, (w - 1) as nat));
    }
}

/// Extending a digit prefix cannot lower its value.
pub proof fn lemma_digits_val_take_le(s: Seq<u8>, i: int)
    requires
        all_digits(s),
        0 <= i <= s.len(),
    ensures
        digits_val(s.take(i)) <= digits_val(s),
    decreases s.len() - i,
{
    if i < s.len() {
        assert(s.take(i + 1).drop_last() =~= s.take(i));
        assert(s.take(i + 1).last() == s[i]);
        assert(digits_val(s.take(i + 1)) == digits_val(s.take(i)) * 10 + (s[i] - 48) as nat);
        lemma_digits_val_take_le(s, i + 1);
        assert(s.take(s.len() as int) =~= s);
    } else {
        assert(s.take(i) =~= s);
    }
}

/// The numeric value of a digit string, when it is one and fits the result type.
pub open spec fn spec_parse_decimal(s: Seq<u8>) -> Option<u64> {
    if s.len() >= 1 && all_digits(s) && digits_val(s) <= u64::MAX {
        Some(digits_val(s) as u64)
    } else {
        None
    }
}

/// Parses a digit string to its value; `None` when the string is empty, holds
/// a non-digit, or names a value that does not fit.
pub(crate) fn parse_decimal(s: &Vec<u8>) -> (r: Option<u64>)
    ensures
        r == spec_parse_decimal(s@),
{
    if s.len() == 0 {
        return None;
    }
    let mut acc: u64 = 0;
    let mut i: usize = 0;
    while i < s.len()
        invariant
            0 <= i <= s.len(),
            s@.len() >= 1,
            all_digits(s@.take(i as int)),
            acc as nat == digits_val(s@.take(i as int)),
        decreases s@.len() - i,
    {
        let b = s[i];
        if b < 48 || b > 57 {
            return None;
        }
        let d: u64 = (b - 48) as u64;
        proof {
            assert(s@.take(i + 1).drop_last() =~= s@.take(i as int));
            assert(s@.take(i + 1).last() == s@[i as int]);
        }
        let next: u128 = acc as u128 * 10 + d as u128;
        if next > u64::MAX as u128 {
            proof {
                assert(digits_val(s@.take(i + 1)) == acc as nat * 10 + d as nat);
                if all_digits(s@) {
                    lemma_digits_val_take_le(s@, i + 1);
                }
            }
            return None;
        }
        acc = next as u64;
        i = i + 1;
    }
    proof {
        assert(s@.take(s@.len() as int) =~= s@);
    }
    Some(acc)
}

/// Appends the canonical decimal digits of `n` to `out`.
pub(crate) fn push_decimal(out: &mut Vec<u8>, n: u64)
    ensures
        final(out)@ == old(out)@ + decimal_digits(n as nat),
    decreases n,
{
    if n < 10 {
        out.push(48 + n as u8);
        proof {
            assert(out@ =~= old(out)@ + decimal_digits(n as nat));
        }
    } else {
        push_decimal(out, n / 10);
        out.push(48 + (n % 10) as u8);
        proof {
            assert(out@ =~= old(out)@ + decimal_digits(n as nat));
        }
    }
}

/// Appends the decimal digits of `n`, zero-padded on the left to width `w`.
pub(crate) fn push_decimal_padded(out: &mut Vec<u8>, n: u64, w: usize)
    ensures
        final(out)@ == old(out)@ + zero_pad(decimal_digits(n as nat), w as nat),
{
    let mut tmp: Vec<u8> = Vec::new();
    push_decimal(&mut tmp, n);
    let mut k: usize = tmp.len();
    while k < w
        invariant
            tmp@.len() <= k,
            k == tmp@.len() || k <= w,
            out@ == old(out)@ + Seq::new((k - tmp@.len()) as nat, |i: int| 48u8),
            tmp@ == decimal_digits(n as nat),
        decreases w - k,
    {
        out.push(48u8);
        proof {
            assert(out@ =~= old(out)@ + Seq::new((k + 1 - tmp@.len()) as nat, |i: int| 48u8));
        }
        k = k + 1;
    }
    let mut j: usize = 0;
    while j < tmp.len()
        invariant
            0 <= j <= tmp@.len(),
            k >= tmp@.len(),
            w <= k,
            out@ == old(out)@ + Seq::new((k - tmp@.len()) as nat, |i: int| 48u8) + tmp@.take(
                j as int,
            ),
            tmp@ == decimal_digits(n as nat),
        decreases tmp@.len() - j,
    {
        let b = tmp[j];
        out.push(b);
        proof {
            assert(tmp@.take(j + 1) =~= tmp@.take(j as int).push(tmp@[j as int]));
            assert(out@ =~= old(out)@ + Seq::new((k - tmp@.len()) as nat, |i: int| 48u8)
                + tmp@.take(j + 1));
        }
        j = j + 1;
    }
    proof {
        assert(tmp@.take(tmp@.len() as int) =~= tmp@);
        lemma_decimal_digits_wf(n as nat);
        assert(out@ =~= old(out)@ + zero_pad(decimal_digits(n as nat), w as nat));
    }
}

} // verus!
