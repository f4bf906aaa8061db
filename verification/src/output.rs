//! Writing labels as text: one label per line, in decimal digits.

use vstd::prelude::*;
use crate::decimal::{all_digits, digits_value, is_digit, DIGIT_ZERO};

verus! {

/// The byte that ends a line.
pub const NEWLINE: u8 = 10;

/// The digits that write `n`, without leading zeros.
pub open spec fn decimal_digits(n: nat) -> Seq<u8>
    decreases n,
{
    if n < 10 {
        seq![(DIGIT_ZERO + n) as u8]
    } else {
        decimal_digits(n / 10).push((DIGIT_ZERO + n % 10) as u8)
    }
}

/// The labels in decimal digits, with a line end between one label and the
/// next and none after the last.
pub open spec fn label_lines(labels: Seq<usize>) -> Seq<u8>
    decreases labels.len(),
{
    if labels.len() == 0 {
        Seq::empty()
    } else if labels.len() == 1 {
        decimal_digits(labels[0] as nat)
    } else {
        label_lines(labels.drop_last()).push(NEWLINE) + decimal_digits(labels.last() as nat)
    }
}

/// The digits of a number are digits, begin with 0 only for 0 itself, and
/// write that number.
pub proof fn lemma_digits_write_number(n: nat)
    ensures
        decimal_digits(n).len() >= 1,
        all_digits(decimal_digits(n)),
        digits_value(decimal_digits(n)) == n,
        n > 0 ==> decimal_digits(n)[0] != DIGIT_ZERO,
    decreases n,
{
    let d = decimal_digits(n);
    if n < 10 {
        assert(d.drop_last() =~= Seq::<u8>::empty());
        assert(digits_value(d.drop_last()) == 0);
        assert(is_digit(d[0]));
    } else {
        let front = decimal_digits(n / 10);
        lemma_digits_write_number(n / 10);
        assert(d.drop_last() =~= front);
        assert forall|i: int| 0 <= i < d.len() implies is_digit(#[trigger] d[i]) by {
            if i < front.len() {
                assert(d[i] == front[i]);
            }
        }
        assert(d[0] == front[0]);
    }
}

/// Appends the digits of `n`.
pub fn push_digits(n: usize, out: &mut Vec<u8>)
    ensures
        final(out)@ == old(out)@ + decimal_digits(n as nat),
    decreases n,
{
    if n >= 10 {
        push_digits(n / 10, out);
    }
    let digit: u8 = DIGIT_ZERO + (n % 10) as u8;
    out.push(digit);
    proof {
        if n >= 10 {
            assert(out@ =~= old(out)@ + decimal_digits((n / 10) as nat).push(digit));
        } else {
            assert(out@ =~= old(out)@ + seq![digit]);
        }
    }
}

/// Writes the labels as text, one per line.
pub fn render_labels(labels: &Vec<usize>) -> (out: Vec<u8>)
    ensures
        out@ == label_lines(labels@),
{
    let mut out: Vec<u8> = Vec::new();
    let mut i: usize = 0;
    while i < labels.len()
        invariant
            i <= labels.len(),
            out@ == label_lines(labels@.take(i as int)),
        decreases labels.len() - i,
    {
        if i > 0 {
            out.push(NEWLINE);
        }
        push_digits(labels[i], &mut out);
        proof {
            let now = labels@.take(i + 1);
            assert(now.drop_last() =~= labels@.take(i as int));
            assert(now.last() == labels@[i as int]);
            if i == 0 {
                assert(out@ =~= decimal_digits(labels@[0] as nat));
            }
        }
        i += 1;
    }
    proof {
        assert(labels@.take(i as int) =~= labels@);
    }
    out
}

} // verus!
