//! Decimal text: the digit strings that carry integers and lengths on the
//! wire, with the exec conversions in both directions.

use vstd::prelude::*;

verus! {

/// The byte that writes the decimal digit `d`.
pub open spec fn digit_byte(d: int) -> u8 {
    (48 + d) as u8
}

/// Whether `b` is an ASCII decimal digit.
pub open spec fn is_digit(b: u8) -> bool {
    48 <= b <= 57
}

/// Whether every byte of `s` is an ASCII decimal digit.
pub open spec fn all_digits(s: Seq<u8>) -> bool {
    forall|i: int| 0 <= i < s.len() ==> is_digit(#[trigger] s[i])
}

/// The canonical decimal digit string of `n >= 0`: no sign, no leading zero
/// except for `0` itself.
pub open spec fn dec_digits(n: int) -> Seq<u8>
    decreases n,
{
    if n < 10 {
        seq![digit_byte(n)]
    } else {
        dec_digits(n / 10).push(digit_byte(n % 10))
    }
}

/// The value of a digit string (most significant digit first).
pub open spec fn digits_val(s: Seq<u8>) -> int
    decreases s.len(),
{
    if s.len() == 0 {
        0
    } else {
        digits_val(s.drop_last()) * 10 + (s.last() - 48)
    }
}

/// Ten to the power `k`.
pub open spec fn pow10(k: int) -> int
    decreases k,
{
    if k <= 0 {
        1
    } else {
        10 * pow10(k - 1)
    }
}

/// `dec_digits` writes digits only, never a sign or a terminator byte.
pub proof fn lemma_dec_digits_digits(n: int)
    requires
        n >= 0,
    ensures
        all_digits(dec_digits(n)),
        dec_digits(n).len() >= 1,
    decreases n,
{
    if n >= 10 {
        lemma_dec_digits_digits(n / 10);
    }
}

/// Reading back the canonical digit string of `n` yields `n`.
pub proof fn lemma_digits_val_dec_digits(n: int)
    requires
        n >= 0,
    ensures
        digits_val(dec_digits(n)) == n,
    decreases n,
{
    if n < 10 {
        reveal_with_fuel(digits_val, 2);
        assert(dec_digits(n).drop_last() =~= Seq::<u8>::empty());
        assert(digits_val(Seq::<u8>::empty()) == 0);
    } else {
        lemma_digits_val_dec_digits(n / 10);
        assert(dec_digits(n).drop_last() =~= dec_digits(n / 10));
    }
}

/// A digit string of length `k` writes a value below `pow10(k)`.
pub proof fn lemma_digits_val_bound(s: Seq<u8>)
    requires
        all_digits(s),
    ensures
        0 <= digits_val(s) < pow10(s.len() as int),
    decreases s.len(),
{
    if s.len() > 0 {
        assert(all_digits(s.drop_last()));
        lemma_digits_val_bound(s.drop_last());
    }
}

/// A value below `pow10(k)` has at most `k` digits.
pub proof fn lemma_dec_digits_len(n: int, k: int)
    requires
        0 <= n < pow10(k),
        k >= 1,
    ensures
        dec_digits(n).len() <= k,
    decreases n,
{
    if n >= 10 {
        assert(pow10(k) == 10 * pow10(k - 1));
        lemma_dec_digits_len(n / 10, k - 1);
    }
}

/// Powers of ten are positive and grow with the exponent.
pub proof fn lemma_pow10_mono(a: int, b: int)
    requires
        a <= b,
    ensures
        1 <= pow10(a) <= pow10(b),
    decreases b,
{
    if b <= 0 {
    } else if a == b {
        lemma_pow10_mono(a - 1, b - 1);
    } else {
        lemma_pow10_mono(a, b - 1);
    }
}

/// The concrete powers of ten the decoder's limits rest on.
pub proof fn lemma_pow10_values()
    ensures
        pow10(10) == 10000000000,
        pow10(19) == 10000000000000000000,
{
    reveal_with_fuel(pow10, 20);
}

/// The reversal of a byte sequence.
pub open spec fn rev_bytes(s: Seq<u8>) -> Seq<u8> {
    Seq::new(s.len(), |i: int| s[s.len() - 1 - i])
}

/// Appends the canonical decimal digit string of `n` to `out`.
pub fn push_decimal(n: u64, out: &mut Vec<u8>)
    ensures
        final(out)@ == old(out)@ + dec_digits(n as int),
{
    let mut tmp: Vec<u8> = Vec::new();
    let mut m: u64 = n;
    while m >= 10
        invariant
            dec_digits(n as int) == dec_digits(m as int) + rev_bytes(tmp@),
        decreases m,
    {
        let d: u8 = (m % 10) as u8 + 48;
        proof {
            assert(d == digit_byte(m as int % 10));
            assert(rev_bytes(tmp@.push(d)) =~= seq![d] + rev_bytes(tmp@));
            assert(dec_digits(m as int) == dec_digits(m as int / 10).push(
                digit_byte(m as int % 10),
            ));
            assert(dec_digits(m as int) =~= dec_digits(m as int / 10) + seq![d]);
            assert(dec_digits(m as int / 10) + seq![d] + rev_bytes(tmp@) =~= dec_digits(
                m as int / 10,
            ) + (seq![d] + rev_bytes(tmp@)));
        }
        tmp.push(d);
        m = m / 10;
    }
    let d0: u8 = m as u8 + 48;
    proof {
        assert(dec_digits(m as int) =~= seq![d0]);
    }
    out.push(d0);
    let mut k: usize = tmp.len();
    proof {
        assert(out@ =~= old(out)@ + dec_digits(m as int) + rev_bytes(tmp@).take(0));
    }
    while k > 0
        invariant
            0 <= k <= tmp@.len(),
            dec_digits(n as int) == dec_digits(m as int) + rev_bytes(tmp@),
            out@ == old(out)@ + dec_digits(m as int) + rev_bytes(tmp@).take(
                tmp@.len() - k as int,
            ),
        decreases k,
    {
        k = k - 1;
        let b = tmp[k];
        proof {
            let j = tmp@.len() - k as int - 1;
            assert(rev_bytes(tmp@)[j] == tmp@[k as int]);
            assert(rev_bytes(tmp@).take(j + 1) =~= rev_bytes(tmp@).take(j).push(b));
            assert((old(out)@ + dec_digits(m as int) + rev_bytes(tmp@).take(j)).push(b)
                =~= old(out)@ + dec_digits(m as int) + rev_bytes(tmp@).take(j + 1));
        }
        out.push(b);
    }
    proof {
        assert(rev_bytes(tmp@).take(tmp@.len() as int) =~= rev_bytes(tmp@));
        assert(out@ =~= old(out)@ + dec_digits(n as int));
    }
}

} // verus!
