//! Numbers as decimal text.

use vstd::prelude::*;

verus! {

pub const DIGIT_ZERO: u8 = 0x30;

pub const PLUS: u8 = 0x2b;

pub open spec fn is_digit(b: u8) -> bool {
    0x30 <= b <= 0x39
}

pub open spec fn all_digits(s: Seq<u8>) -> bool {
    forall|i: int| 0 <= i < s.len() ==> is_digit(#[trigger] s[i])
}

/// The number that a run of decimal digits denotes, most significant digit first.
pub open spec fn digits_value(s: Seq<u8>) -> nat
    decreases s.len(),
{
    if s.len() == 0 {
        0
    } else {
        digits_value(s.drop_last()) * 10 + (s.last() - 0x30) as nat
    }
}

/// The shortest decimal text of `n`: no sign, no leading zero but for zero itself.
pub open spec fn decimal(n: nat) -> Seq<u8>
    decreases n,
{
    if n < 10 {
        seq![(0x30 + n) as u8]
    } else {
        decimal(n / 10).push((0x30 + n % 10) as u8)
    }
}

/// The digits of a numeric field: the field itself, or what follows one leading `+`.
pub open spec fn field_digits(s: Seq<u8>) -> Seq<u8> {
    if s.len() > 0 && s[0] == PLUS {
        s.skip(1)
    } else {
        s
    }
}

/// What a numeric field denotes if it is to stay at or below `max`: an
/// optional `+`, then at least one decimal digit. Leading zeros are accepted.
pub open spec fn number_up_to(s: Seq<u8>, max: nat) -> Option<nat> {
    let digits = field_digits(s);
    if digits.len() > 0 && all_digits(digits) && digits_value(digits) <= max {
        Some(digits_value(digits))
    } else {
        None
    }
}

/// What a numeric field denotes as an unsigned 32-bit number.
pub open spec fn number_field(s: Seq<u8>) -> Option<u32> {
    match number_up_to(s, u32::MAX as nat) {
        Some(n) => Some(n as u32),
        None => None,
    }
}

pub proof fn lemma_digits_value_prefix(s: Seq<u8>, k: int)
    requires
        0 <= k <= s.len(),
    ensures
        digits_value(s.take(k)) <= digits_value(s),
    decreases s.len(),
{
    if k == s.len() {
        assert(s.take(k) == s);
    } else {
        lemma_digits_value_prefix(s.drop_last(), k);
        assert(s.drop_last().take(k) == s.take(k));
    }
}

/// The decimal text of a number is a non-empty run of digits that denotes it.
pub proof fn lemma_decimal_digits(n: nat)
    ensures
        decimal(n).len() >= 1,
        all_digits(decimal(n)),
        digits_value(decimal(n)) == n,
    decreases n,
{
    if n < 10 {
        let s = decimal(n);
        assert(digits_value(s.drop_last()) == 0);
    } else {
        lemma_decimal_digits(n / 10);
        let s = decimal(n);
        assert(s.drop_last() == decimal(n / 10));
        assert forall|i: int| 0 <= i < s.len() implies is_digit(#[trigger] s[i]) by {
            if i < s.len() - 1 {
                assert(s[i] == decimal(n / 10)[i]);
            }
        }
    }
}

/// Appends the decimal text of `n` to `out`.
pub fn push_decimal(out: &mut Vec<u8>, n: u32)
    ensures
        final(out)@ == old(out)@ + decimal(n as nat),
    decreases n,
{
    if n >= 10 {
        push_decimal(out, n / 10);
    }
    let digit: u8 = (n % 10) as u8;
    out.push(DIGIT_ZERO + digit);
    proof {
        if n < 10 {
            assert(final(out)@ =~= old(out)@ + decimal(n as nat));
        } else {
            assert(final(out)@ =~= old(out)@ + decimal(n as nat));
        }
    }
}

/// Reads a numeric field that is to stay at or below `max`.
pub fn parse_up_to(field: &[u8], max: u64) -> (value: Option<u64>)
    ensures
        match number_up_to(field@, max as nat) {
            Some(n) => value == Some(n as u64),
            None => value is None,
        },
{
    let start: usize = if field.len() > 0 && field[0] == PLUS { 1 } else { 0 };
    let ghost digits = field_digits(field@);
    if start == field.len() {
        return None;
    }
    let mut acc: u64 = 0;
    let mut i: usize = start;
    while i < field.len()
        invariant
            start <= i <= field.len(),
            digits == field@.skip(start as int),
            digits == field_digits(field@),
            all_digits(digits.take(i - start)),
            acc == digits_value(digits.take(i - start)),
            acc <= max,
        decreases field.len() - i,
    {
        let b: u8 = field[i];
        let ghost next = digits.take(i - start + 1);
        proof {
            assert(next.drop_last() == digits.take(i - start));
        }
        if b < 0x30 || b > 0x39 {
            proof {
                assert(!is_digit(digits[i - start]));
            }
            return None;
        }
        let wide: u128 = acc as u128 * 10 + (b - DIGIT_ZERO) as u128;
        if wide > max as u128 {
            proof {
                lemma_digits_value_prefix(digits, i - start + 1);
            }
            return None;
        }
        acc = wide as u64;
        proof {
            assert forall|j: int| 0 <= j < next.len() implies is_digit(#[trigger] next[j]) by {
                if j < next.len() - 1 {
                    assert(next[j] == digits.take(i - start)[j]);
                }
            }
        }
        i += 1;
    }
    proof {
        assert(digits.take(i - start) == digits);
    }
    Some(acc)
}

/// Reads a numeric field as an unsigned 32-bit number.
pub fn parse_number(field: &[u8]) -> (value: Option<u32>)
    ensures
        value == number_field(field@),
{
    match parse_up_to(field, 0xffff_ffff) {
        Some(n) => Some(n as u32),
        None => None,
    }
}

} // verus!
