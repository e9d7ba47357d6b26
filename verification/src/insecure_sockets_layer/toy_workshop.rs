//! The work of the toy workshop: of the toys of a request, the one that is
//! asked for most often is made first.
//!
//! A request is a list of toys parted by commas, as in
//! `10x toy car,15x dog on a string`. Each toy begins with its quantity, a
//! decimal number, and an `x`.

use crate::decimal::{number_up_to, parse_up_to};
use crate::strings::substring;
use crate::text::{find_byte, first_of};
use vstd::prelude::*;
use vstd::slice::slice_subrange;
use vstd::string::StringSliceAdditionalSpecFns;

verus! {

pub const COMMA: u8 = 0x2c;

pub const LETTER_X: u8 = 0x78;

/// The quantity of a toy: the number before its first `x`, if there is an
/// `x` and what stands before it is an unsigned 64-bit decimal number, with
/// or without a `+` before it.
pub open spec fn toy_quantity(toy: Seq<u8>) -> Option<u64> {
    if first_of(toy, LETTER_X) < toy.len() {
        match number_up_to(toy.take(first_of(toy, LETTER_X)), u64::MAX as nat) {
            Some(n) => Some(n as u64),
            None => None,
        }
    } else {
        None
    }
}

/// The toys behind offset `end` of `request`, where `end` is the offset of a
/// comma or the length of the request.
pub open spec fn toys_behind(request: Seq<u8>, end: int) -> Seq<Seq<u8>>
    decreases request.len() - end,
{
    if 0 <= end < request.len() {
        let next = end + 1 + first_of(request.skip(end + 1), COMMA);
        if end < next <= request.len() {
            seq![request.subrange(end + 1, next)] + toys_behind(request, next)
        } else {
            Seq::empty()
        }
    } else {
        Seq::empty()
    }
}

/// The toys of a request: what stands between its commas. A request without
/// a comma is one toy.
pub open spec fn toys(request: Seq<u8>) -> Seq<Seq<u8>> {
    seq![request.take(first_of(request, COMMA))] + toys_behind(
        request,
        first_of(request, COMMA),
    )
}

/// Whether every toy of the list has a quantity.
pub open spec fn all_have_quantity(list: Seq<Seq<u8>>) -> bool {
    forall|i: int| 0 <= i < list.len() ==> toy_quantity(#[trigger] list[i]) is Some
}

/// A request whose toys all have a quantity.
pub open spec fn valid_request(request: Seq<u8>) -> bool {
    all_have_quantity(toys(request))
}

/// The toy to make first when `best` is the choice so far and `rest` is
/// still to be looked at: a later toy takes the place of an earlier one
/// unless its quantity is smaller.
pub open spec fn choice(best: Seq<u8>, rest: Seq<Seq<u8>>) -> Seq<u8>
    decreases rest.len(),
{
    if rest.len() == 0 {
        best
    } else if toy_quantity(rest[0])->0 >= toy_quantity(best)->0 {
        choice(rest[0], rest.skip(1))
    } else {
        choice(best, rest.skip(1))
    }
}

/// The toy of the request with the largest quantity, and of several such
/// the last.
pub open spec fn prioritised(request: Seq<u8>) -> Seq<u8> {
    choice(toys(request)[0], toys(request).skip(1))
}

/// The quantity of `toy`, if it has one.
pub fn read_toy_quantity(toy: &[u8]) -> (quantity: Option<u64>)
    ensures
        quantity == toy_quantity(toy@),
{
    let k = find_byte(toy, 0, LETTER_X);
    proof {
        assert(toy@.skip(0) =~= toy@);
    }
    if k == toy.len() {
        return None;
    }
    let digits = slice_subrange(toy, 0, k);
    proof {
        assert(digits@ =~= toy@.take(k as int));
    }
    parse_up_to(digits, 0xffff_ffff_ffff_ffff)
}

/// The quantity of `toy`.
pub fn parse_toy_quantity(toy: &str) -> (quantity: u64)
    requires
        toy_quantity(toy.spec_bytes()) is Some,
    ensures
        Some(quantity) == toy_quantity(toy.spec_bytes()),
{
    match read_toy_quantity(toy.as_bytes()) {
        Some(quantity) => quantity,
        None => vstd::pervasive::unreached(),
    }
}

/// Whether every toy of `request` has a quantity.
pub fn is_valid_request(request: &str) -> (valid: bool)
    ensures
        valid == valid_request(request.spec_bytes()),
{
    let bytes = request.as_bytes();
    let ghost all = toys(bytes@);
    let mut end: usize = find_byte(bytes, 0, COMMA);
    let first = slice_subrange(bytes, 0, end);
    proof {
        assert(bytes@.skip(0) =~= bytes@);
        assert(all[0] == first@);
    }
    if read_toy_quantity(first).is_none() {
        return false;
    }
    proof {
        assert(seq![first@] + toys_behind(bytes@, end as int) == all);
    }
    let ghost mut seen: Seq<Seq<u8>> = seq![first@];
    while end < bytes.len()
        invariant
            end <= bytes.len(),
            bytes@ == request.spec_bytes(),
            all == toys(bytes@),
            seen + toys_behind(bytes@, end as int) == all,
            all_have_quantity(seen),
        decreases bytes.len() - end,
    {
        let next = find_byte(bytes, end + 1, COMMA);
        let toy = slice_subrange(bytes, end + 1, next);
        let ghost later = toys_behind(bytes@, next as int);
        proof {
            assert(toys_behind(bytes@, end as int) == seq![toy@] + later);
        }
        if read_toy_quantity(toy).is_none() {
            proof {
                assert(all[seen.len() as int] == toy@);
            }
            return false;
        }
        proof {
            assert forall|i: int| 0 <= i < seen.push(toy@).len() implies toy_quantity(
                #[trigger] seen.push(toy@)[i],
            ) is Some by {
                if i < seen.len() {
                    assert(seen.push(toy@)[i] == seen[i]);
                }
            }
            seen = seen.push(toy@);
        }
        end = next;
    }
    proof {
        assert(toys_behind(bytes@, end as int) =~= Seq::<Seq<u8>>::empty());
    }
    true
}

/// The toy of `request` to make first.
pub fn prioritise_work(request: &str) -> (toy: &str)
    requires
        valid_request(request.spec_bytes()),
    ensures
        toy.spec_bytes() == prioritised(request.spec_bytes()),
{
    let bytes = request.as_bytes();
    let ghost all = toys(bytes@);
    let mut end: usize = find_byte(bytes, 0, COMMA);
    proof {
        assert(bytes@.skip(0) =~= bytes@);
    }
    let first = slice_subrange(bytes, 0, end);
    proof {
        assert(all[0] == first@);
        assert(all.skip(1) =~= toys_behind(bytes@, end as int));
        assert forall|i: int| 0 <= i < all.skip(1).len() implies toy_quantity(
            #[trigger] all.skip(1)[i],
        ) is Some by {
            assert(all.skip(1)[i] == all[i + 1]);
        }
    }
    let mut best_from: usize = 0;
    let mut best_to: usize = end;
    let mut best_quantity: u64 = match read_toy_quantity(first) {
        Some(quantity) => quantity,
        None => vstd::pervasive::unreached(),
    };
    while end < bytes.len()
        invariant
            best_from <= best_to <= end <= bytes.len(),
            bytes@ == request.spec_bytes(),
            end < bytes.len() ==> bytes@[end as int] == COMMA,
            best_to < bytes.len() ==> bytes@[best_to as int] == COMMA,
            best_from > 0 ==> bytes@[best_from - 1] == COMMA,
            toy_quantity(bytes@.subrange(best_from as int, best_to as int)) == Some(best_quantity),
            all_have_quantity(toys_behind(bytes@, end as int)),
            choice(
                bytes@.subrange(best_from as int, best_to as int),
                toys_behind(bytes@, end as int),
            ) == prioritised(bytes@),
        decreases bytes.len() - end,
    {
        let next = find_byte(bytes, end + 1, COMMA);
        let toy = slice_subrange(bytes, end + 1, next);
        let ghost rest = toys_behind(bytes@, end as int);
        let ghost later = toys_behind(bytes@, next as int);
        proof {
            assert(rest.skip(1) =~= later);
            assert forall|i: int| 0 <= i < later.len() implies toy_quantity(
                #[trigger] later[i],
            ) is Some by {
                assert(later[i] == rest[i + 1]);
            }
        }
        let quantity: u64 = match read_toy_quantity(toy) {
            Some(quantity) => quantity,
            None => vstd::pervasive::unreached(),
        };
        if quantity >= best_quantity {
            best_from = end + 1;
            best_to = next;
            best_quantity = quantity;
        }
        end = next;
    }
    proof {
        assert(toys_behind(bytes@, end as int) =~= Seq::<Seq<u8>>::empty());
    }
    substring(request, best_from, best_to)
}

} // verus!
