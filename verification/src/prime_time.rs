//! Requests that ask whether a number is prime.
//!
//! A request is one line. Its number can have any length, so it is taken
//! as decimal text, and tested by trial division.

use crate::decimal::{all_digits, digits_value, is_digit, parse_up_to};
use crate::strings::same_text;
use crate::text::{find_byte, first_of};
use vstd::arithmetic::div_mod::{lemma_fundamental_div_mod, lemma_mod_multiples_vanish};
use vstd::prelude::*;
use vstd::slice::slice_subrange;

verus! {

pub const NEWLINE: u8 = 0x0a;

pub const MINUS: u8 = 0x2d;

/// One line of a connection, without its line feed.
#[derive(Debug, PartialEq, Eq)]
pub struct Frame(pub Vec<u8>);

impl Frame {
    /// The first line of `buffer`, and the number of bytes that it takes
    /// with its line feed; `None` as long as `buffer` holds no line feed.
    pub fn parse(buffer: &[u8]) -> (found: Option<(Frame, usize)>)
        ensures
            match found {
                Some(line) => first_of(buffer@, NEWLINE) < buffer@.len() && line.0.0@
                    == buffer@.take(first_of(buffer@, NEWLINE)) && line.1 == first_of(
                    buffer@,
                    NEWLINE,
                ) + 1,
                None => first_of(buffer@, NEWLINE) == buffer@.len(),
            },
    {
        let position = find_byte(buffer, 0, NEWLINE);
        proof {
            assert(buffer@.skip(0) =~= buffer@);
        }
        if position == buffer.len() {
            return None;
        }
        let mut line: Vec<u8> = Vec::new();
        line.extend_from_slice(slice_subrange(buffer, 0, position));
        proof {
            assert(line@ =~= buffer@.take(position as int));
        }
        Some((Frame(line), position + 1))
    }
}

/// A request as it stands in a line: a method, and a number in decimal
/// text.
#[derive(Debug, Clone, PartialEq, Eq)]
pub struct Request {
    pub method: String,
    pub number: Vec<u8>,
}

#[derive(Debug, Clone, PartialEq, Eq)]
pub struct Response {
    pub method: String,
    pub prime: bool,
}

/// Why a request is refused.
#[derive(Debug, Clone, Copy, PartialEq, Eq, Structural)]
pub enum HandleError {
    /// The method is not `isPrime`.
    InvalidMethod,
}

/// The digits of a whole number in decimal text: the text itself, or what
/// follows one leading `-`.
pub open spec fn magnitude(text: Seq<u8>) -> Seq<u8> {
    if text.len() > 0 && text[0] == MINUS {
        text.skip(1)
    } else {
        text
    }
}

/// A whole number in decimal text: an optional `-` and at least one digit.
pub open spec fn integer_text(text: Seq<u8>) -> bool {
    magnitude(text).len() > 0 && all_digits(magnitude(text))
}

/// The number that the text denotes.
pub open spec fn integer_value(text: Seq<u8>) -> int {
    if text.len() > 0 && text[0] == MINUS {
        -(digits_value(magnitude(text)) as int)
    } else {
        digits_value(magnitude(text)) as int
    }
}

/// A prime in the plain sense: at least 2, and divided by no number
/// between 1 and itself.
pub open spec fn is_prime_number(v: int) -> bool {
    v >= 2 && forall|d: int| 2 <= d < v ==> #[trigger] (v % d) != 0
}

/// What trial division finds: `v` is at least 2, and no number from 2 up
/// to the largest that 64 bits hold, and whose square is at most `v`,
/// divides it.
pub open spec fn prime_by_trial(v: int) -> bool {
    v >= 2 && forall|d: int| 2 <= d <= u64::MAX && d * d <= v ==> #[trigger] (v % d) != 0
}

/// For numbers below 2 to the power of 128, trial division finds the
/// primes.
pub proof fn lemma_trial_finds_primes(v: int)
    requires
        v < 0x1_0000_0000_0000_0000_0000_0000_0000_0000,
    ensures
        prime_by_trial(v) == is_prime_number(v),
{
    if v >= 2 {
        if is_prime_number(v) {
            assert forall|d: int| 2 <= d <= u64::MAX && d * d <= v implies #[trigger] (v % d)
                != 0 by {
                assert(d < v) by (nonlinear_arith)
                    requires
                        2 <= d,
                        d * d <= v,
                ;
            }
        }
        if prime_by_trial(v) {
            assert forall|d: int| 2 <= d < v implies #[trigger] (v % d) != 0 by {
                if v % d == 0 {
                    let e = v / d;
                    lemma_fundamental_div_mod(v, d);
                    assert(e >= 2) by (nonlinear_arith)
                        requires
                            v == d * e,
                            2 <= d < v,
                    ;
                    let least = if d <= e { d } else { e };
                    let other = if d <= e { e } else { d };
                    assert(v == least * other) by (nonlinear_arith)
                        requires
                            v == d * e,
                            (least == d && other == e) || (least == e && other == d),
                    ;
                    assert(least * least <= v) by (nonlinear_arith)
                        requires
                            v == least * other,
                            2 <= least <= other,
                    ;
                    assert(least <= u64::MAX) by (nonlinear_arith)
                        requires
                            least * least <= v,
                            0 <= least,
                            v < 0x1_0000_0000_0000_0000_0000_0000_0000_0000,
                    ;
                    lemma_mod_multiples_vanish(other, 0, least);
                }
            }
        }
    }
}

/// An odd number is divided by no even one.
proof fn lemma_odd_has_no_even_divisor(v: int, d: int)
    requires
        0 <= v,
        v % 2 != 0,
        d > 0,
        d % 2 == 0,
    ensures
        v % d != 0,
{
    if v % d == 0 {
        lemma_fundamental_div_mod(v, d);
        let half = d / 2;
        let q = v / d;
        assert(v == 2 * (half * q)) by (nonlinear_arith)
            requires
                v == d * q,
                d == 2 * half,
        ;
    }
}

/// Whether `text` is a whole number in decimal text.
pub fn is_integer_text(text: &[u8]) -> (whole: bool)
    ensures
        whole == integer_text(text@),
{
    let start: usize = if text.len() > 0 && text[0] == MINUS { 1 } else { 0 };
    proof {
        assert(magnitude(text@) == text@.skip(start as int));
    }
    if start == text.len() {
        return false;
    }
    let mut i: usize = start;
    while i < text.len()
        invariant
            start <= i <= text.len(),
            magnitude(text@) == text@.skip(start as int),
            forall|j: int| start <= j < i ==> is_digit(text@[j]),
        decreases text.len() - i,
    {
        if text[i] < 0x30 || text[i] > 0x39 {
            proof {
                assert(!is_digit(magnitude(text@)[i - start]));
            }
            return false;
        }
        i += 1;
    }
    proof {
        assert forall|j: int| 0 <= j < magnitude(text@).len() implies is_digit(
            #[trigger] magnitude(text@)[j],
        ) by {
            assert(magnitude(text@)[j] == text@[j + start]);
        }
    }
    true
}

/// The remainder of the number that `digits` denote when divided by `n`.
pub fn remainder(digits: &[u8], n: u64) -> (r: u64)
    requires
        all_digits(digits@),
        n > 0,
    ensures
        r == digits_value(digits@) % (n as nat),
{
    let mut acc: u64 = 0;
    let mut i: usize = 0;
    proof {
        assert(0nat % (n as nat) == 0);
    }
    while i < digits.len()
        invariant
            i <= digits.len(),
            all_digits(digits@),
            n > 0,
            acc < n,
            acc == digits_value(digits@.take(i as int)) % (n as nat),
        decreases digits.len() - i,
    {
        let digit: u8 = digits[i] - 0x30;
        let wide: u128 = acc as u128 * 10 + digit as u128;
        proof {
            let before = digits_value(digits@.take(i as int)) as int;
            let next = digits@.take(i + 1);
            assert(next.drop_last() =~= digits@.take(i as int));
            lemma_fundamental_div_mod(before, n as int);
            let q = before / (n as int);
            assert(before * 10 + digit == (n as int) * (10 * q) + (acc * 10 + digit)) by (
                nonlinear_arith)
                requires
                    before == (n as int) * q + acc,
            ;
            lemma_mod_multiples_vanish(10 * q, acc * 10 + digit, n as int);
        }
        acc = (wide % (n as u128)) as u64;
        i += 1;
    }
    proof {
        assert(digits@.take(i as int) =~= digits@);
    }
    acc
}

/// The number that `digits` denote, if 128 bits hold it.
fn value_u128(digits: &[u8]) -> (value: Option<u128>)
    requires
        all_digits(digits@),
    ensures
        match value {
            Some(v) => v == digits_value(digits@),
            None => digits_value(digits@) > u128::MAX,
        },
{
    let mut acc: u128 = 0;
    let mut i: usize = 0;
    proof {
        assert(digits@.take(0) =~= Seq::<u8>::empty());
    }
    while i < digits.len()
        invariant
            i <= digits.len(),
            all_digits(digits@),
            acc == digits_value(digits@.take(i as int)),
        decreases digits.len() - i,
    {
        let digit: u128 = (digits[i] - 0x30) as u128;
        proof {
            let next = digits@.take(i + 1);
            assert(next.drop_last() =~= digits@.take(i as int));
        }
        if acc > (u128::MAX - digit) / 10 {
            proof {
                crate::decimal::lemma_digits_value_prefix(digits@, i + 1);
                assert(acc * 10 + digit > u128::MAX) by (nonlinear_arith)
                    requires
                        acc > (u128::MAX - digit) / 10,
                        0 <= digit <= 9,
                ;
            }
            return None;
        }
        assert(acc * 10 + digit <= u128::MAX) by (nonlinear_arith)
            requires
                acc <= (u128::MAX - digit) / 10,
                0 <= digit <= 9,
        ;
        acc = acc * 10 + digit;
        i += 1;
    }
    proof {
        assert(digits@.take(i as int) =~= digits@);
    }
    Some(acc)
}

/// Whether trial division finds the number prime.
pub fn is_prime(number: &[u8]) -> (prime: bool)
    requires
        integer_text(number@),
    ensures
        prime == prime_by_trial(integer_value(number@)),
{
    if number[0] == MINUS {
        return false;
    }
    let ghost v = integer_value(number@);
    proof {
        assert(magnitude(number@) == number@);
    }
    match parse_up_to(number, 3) {
        Some(small) => {
            if small < 2 {
                return false;
            }
            proof {
                assert forall|d: int| 2 <= d <= u64::MAX && d * d <= v implies #[trigger] (v
                    % d) != 0 by {
                    assert(d * d >= 4) by (nonlinear_arith)
                        requires
                            d >= 2,
                    ;
                }
            }
            return true;
        },
        None => {},
    }
    if remainder(number, 2) == 0 {
        proof {
            assert(v % 2 == 0);
        }
        return false;
    }
    let limit = value_u128(number);
    let mut n: u64 = 3;
    proof {
        assert forall|d: int| 2 <= d < 3 implies #[trigger] (v % d) != 0 by {}
    }
    loop
        invariant
            integer_text(number@),
            all_digits(number@),
            v == digits_value(number@),
            v >= 4,
            v % 2 != 0,
            3 <= n,
            n % 2 == 1,
            match limit {
                Some(l) => l == v,
                None => v > u128::MAX,
            },
            forall|d: int| 2 <= d < n ==> #[trigger] (v % d) != 0,
        decreases u64::MAX - n,
    {
        assert(n * n <= u128::MAX) by (nonlinear_arith)
            requires
                0 <= n <= u64::MAX,
        ;
        let square: u128 = n as u128 * n as u128;
        let within = match limit {
            Some(l) => square <= l,
            None => true,
        };
        if !within {
            proof {
                assert forall|d: int| 2 <= d <= u64::MAX && d * d <= v implies #[trigger] (v
                    % d) != 0 by {
                    if d >= n {
                        assert(d * d >= n * n) by (nonlinear_arith)
                            requires
                                d >= n,
                                n >= 0,
                        ;
                    }
                }
            }
            return true;
        }
        if remainder(number, n) == 0 {
            proof {
                assert(v % (n as int) == 0);
            }
            return false;
        }
        if n > u64::MAX - 2 {
            proof {
                assert(n == u64::MAX);
            }
            return true;
        }
        proof {
            lemma_odd_has_no_even_divisor(v, n + 1);
            assert forall|d: int| 2 <= d < n + 2 implies #[trigger] (v % d) != 0 by {
                if d == n {
                    assert(v % (n as int) != 0);
                } else if d == n + 1 {
                    assert(v % (n + 1) != 0);
                }
            }
        }
        n = n + 2;
    }
}

/// Answers a request: whether its number is prime, if its method is
/// `isPrime`.
pub fn handle(request: &Request) -> (res: Result<Response, HandleError>)
    requires
        integer_text(request.number@),
    ensures
        match res {
            Ok(response) => request.method@ == "isPrime"@ && response.method@ == "isPrime"@
                && response.prime == prime_by_trial(integer_value(request.number@)),
            Err(HandleError::InvalidMethod) => request.method@ != "isPrime"@,
        },
{
    let expected = "isPrime";
    if !same_text(request.method.as_str(), expected) {
        return Err(HandleError::InvalidMethod);
    }
    Ok(Response { method: expected.to_owned(), prime: is_prime(request.number.as_slice()) })
}

} // verus!
