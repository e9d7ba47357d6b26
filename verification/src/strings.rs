//! Strings and their bytes.
//!
//! A string is taken by its UTF-8 bytes wherever offsets count. Two
//! functions of the standard library stand behind contracts that are not
//! proved here: [`trim_end`] and the making of a string from bytes in
//! [`ascii_string`].

use crate::text::{is_ascii, same_bytes};
use vstd::prelude::*;
use vstd::string::StringSliceAdditionalSpecFns;
use vstd::utf8::{encode_utf8, encode_utf8_decode_utf8, encode_utf8_valid_utf8};
use vstd::utf8::{is_char_boundary, valid_utf8};
use vstd::utf8::{is_char_boundary_iff_not_is_continuation_byte, is_char_boundary_start_end_of_seq};
use vstd::utf8::{is_leading_byte_width_1, partial_valid_utf8_extend_ascii_block};

verus! {

/// Strings with the same bytes are the same.
pub proof fn lemma_same_bytes_same_text(a: Seq<char>, b: Seq<char>)
    requires
        encode_utf8(a) == encode_utf8(b),
    ensures
        a == b,
{
    encode_utf8_decode_utf8(a);
    encode_utf8_decode_utf8(b);
}

/// Whether two strings are the same.
pub fn same_text(a: &str, b: &str) -> (same: bool)
    ensures
        same == (a@ == b@),
{
    let same = same_bytes(a.as_bytes(), b.as_bytes());
    proof {
        if same {
            lemma_same_bytes_same_text(a@, b@);
        }
    }
    same
}

/// In valid UTF-8 a character begins at `index` if that is where the bytes
/// end or an ASCII byte stands.
proof fn lemma_ascii_is_boundary(bytes: Seq<u8>, index: int)
    requires
        valid_utf8(bytes),
        0 <= index <= bytes.len(),
        index < bytes.len() ==> bytes[index] < 0x80,
    ensures
        is_char_boundary(bytes, index),
{
    if index < bytes.len() {
        is_char_boundary_iff_not_is_continuation_byte(bytes, index);
    } else {
        is_char_boundary_start_end_of_seq(bytes);
    }
}

/// In valid UTF-8 a character begins behind an ASCII byte at the start.
proof fn lemma_boundary_behind_ascii(bytes: Seq<u8>)
    requires
        valid_utf8(bytes),
        bytes.len() > 0,
        bytes[0] < 0x80,
    ensures
        is_char_boundary(bytes, 1),
{
    reveal_with_fuel(is_char_boundary, 2);
}

/// The part of `s` from byte `from` up to byte `to`, where each of the two
/// offsets is an end of `s` or stands next to an ASCII byte: `to` before
/// one, `from` behind one.
pub fn substring<'a>(s: &'a str, from: usize, to: usize) -> (part: &'a str)
    requires
        from <= to <= s.spec_bytes().len(),
        to < s.spec_bytes().len() ==> s.spec_bytes()[to as int] < 0x80,
        from > 0 ==> s.spec_bytes()[from - 1] < 0x80,
    ensures
        part.spec_bytes() == s.spec_bytes().subrange(from as int, to as int),
{
    let ghost bytes = s.spec_bytes();
    proof {
        encode_utf8_valid_utf8(s@);
        lemma_ascii_is_boundary(bytes, to as int);
    }
    let (head, _) = s.split_at(to);
    if from == 0 {
        return head;
    }
    proof {
        encode_utf8_valid_utf8(head@);
        lemma_ascii_is_boundary(head.spec_bytes(), from - 1);
    }
    let (_, tail) = head.split_at(from - 1);
    proof {
        encode_utf8_valid_utf8(tail@);
        lemma_boundary_behind_ascii(tail.spec_bytes());
    }
    let (_, part) = tail.split_at(1);
    proof {
        assert(part.spec_bytes() =~= bytes.subrange(from as int, to as int));
    }
    part
}

/// `String::from_utf8`: a string is made of the bytes if and only if they
/// are valid UTF-8, and its bytes are then the ones given.
#[verifier::external_body]
fn string_from_utf8(bytes: Vec<u8>) -> (text: Option<String>)
    ensures
        text is Some <==> valid_utf8(bytes@),
        text is Some ==> encode_utf8(text->0@) == bytes@,
{
    match String::from_utf8(bytes) {
        Ok(text) => Some(text),
        Err(_) => None,
    }
}

/// The string whose bytes are the given ASCII bytes.
pub fn ascii_string(bytes: Vec<u8>) -> (text: String)
    requires
        is_ascii(bytes@),
    ensures
        encode_utf8(text@) == bytes@,
{
    proof {
        let b = bytes@;
        assert forall|i: int| 0 <= i < b.len() implies #[trigger] is_leading_byte_width_1(
            b[i],
        ) by {
            assert(b[i] < 0x80);
        }
        partial_valid_utf8_extend_ascii_block(b, 0, b.len() as int);
        assert(b.subrange(0, b.len() as int) =~= b);
    }
    match string_from_utf8(bytes) {
        Some(text) => text,
        None => vstd::pervasive::unreached(),
    }
}

/// The characters with the Unicode property `White_Space`.
pub open spec fn is_white_space(c: char) -> bool {
    let code = c as u32;
    ||| 0x09 <= code <= 0x0d
    ||| code == 0x20
    ||| code == 0x85
    ||| code == 0xa0
    ||| code == 0x1680
    ||| 0x2000 <= code <= 0x200a
    ||| code == 0x2028
    ||| code == 0x2029
    ||| code == 0x202f
    ||| code == 0x205f
    ||| code == 0x3000
}

/// `s` without the white space at its end.
pub open spec fn trimmed_end(s: Seq<char>) -> Seq<char>
    decreases s.len(),
{
    if s.len() > 0 && is_white_space(s.last()) {
        trimmed_end(s.drop_last())
    } else {
        s
    }
}

/// `str::trim_end`: the string without the characters at its end that have
/// the Unicode property `White_Space`.
#[verifier::external_body]
pub(crate) fn trim_end(s: &str) -> (trimmed: &str)
    ensures
        trimmed@ == trimmed_end(s@),
{
    s.trim_end()
}

} // verus!
