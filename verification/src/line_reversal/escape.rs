//! Escaping of the payload of a data message.
//!
//! On the wire the separator `/` and the escape byte `\` of a payload are each
//! preceded by a `\`. Escaping puts a `\` before every `\` first and before
//! every `/` then, which amounts to one pass that puts a `\` before each of
//! the two. Unescaping runs the other way round, in two passes: `\/` becomes
//! `/`, and then `\\` becomes `\`. A `\` before any other byte is kept as it
//! is.

use crate::text::is_ascii;
use vstd::prelude::*;

verus! {

pub const SLASH: u8 = 0x2f;

pub const BACKSLASH: u8 = 0x5c;

pub open spec fn needs_escape(b: u8) -> bool {
    b == SLASH || b == BACKSLASH
}

pub open spec fn escape_byte(b: u8) -> Seq<u8> {
    if needs_escape(b) {
        seq![BACKSLASH, b]
    } else {
        seq![b]
    }
}

/// The payload as it stands on the wire.
pub open spec fn escape(s: Seq<u8>) -> Seq<u8>
    decreases s.len(),
{
    if s.len() == 0 {
        Seq::empty()
    } else {
        escape_byte(s[0]) + escape(s.skip(1))
    }
}

/// One pass of unescaping: from left to right, every `\` that is directly
/// followed by `second` is dropped, and the scan goes on behind `second`.
pub open spec fn collapse(s: Seq<u8>, second: u8) -> Seq<u8>
    decreases s.len(),
{
    if s.len() == 0 {
        Seq::empty()
    } else if s.len() >= 2 && s[0] == BACKSLASH && s[1] == second {
        seq![second] + collapse(s.skip(2), second)
    } else {
        seq![s[0]] + collapse(s.skip(1), second)
    }
}

/// The payload that a wire field stands for.
pub open spec fn unescape(s: Seq<u8>) -> Seq<u8> {
    collapse(collapse(s, SLASH), BACKSLASH)
}

/// A `/` without a `\` directly before it.
pub open spec fn bare_slash_at(s: Seq<u8>, i: int) -> bool {
    0 <= i < s.len() && s[i] == SLASH && (i == 0 || s[i - 1] != BACKSLASH)
}

pub open spec fn has_bare_slash(s: Seq<u8>) -> bool {
    exists|i: int| bare_slash_at(s, i)
}

/// How many bytes a byte of a payload takes on the wire.
pub open spec fn escaped_size(b: u8) -> nat {
    if needs_escape(b) {
        2
    } else {
        1
    }
}

/// How many bytes of `s` need an escape.
pub open spec fn escapes(s: Seq<u8>) -> nat
    decreases s.len(),
{
    if s.len() == 0 {
        0
    } else {
        escapes(s.skip(1)) + if needs_escape(s[0]) {
            1nat
        } else {
            0nat
        }
    }
}

/// Escaping makes a payload longer by one byte for each byte that needs an
/// escape.
pub proof fn lemma_escape_len(s: Seq<u8>)
    ensures
        escape(s).len() == s.len() + escapes(s),
        escapes(s) <= s.len(),
    decreases s.len(),
{
    if s.len() > 0 {
        lemma_escape_len(s.skip(1));
    }
}

/// `s` with a `\` before every `byte`.
pub open spec fn guarded(s: Seq<u8>, byte: u8) -> Seq<u8>
    decreases s.len(),
{
    if s.len() == 0 {
        Seq::empty()
    } else if s[0] == byte {
        seq![BACKSLASH, byte] + guarded(s.skip(1), byte)
    } else {
        seq![s[0]] + guarded(s.skip(1), byte)
    }
}

/// Escaping is the same as guarding every `\` first and every `/` then.
pub proof fn lemma_escape_in_two_steps(s: Seq<u8>)
    ensures
        escape(s) == guarded(guarded(s, BACKSLASH), SLASH),
    decreases s.len(),
{
    if s.len() > 0 {
        let rest = s.skip(1);
        let inner = guarded(rest, BACKSLASH);
        let first = guarded(s, BACKSLASH);
        lemma_escape_in_two_steps(rest);
        if s[0] == BACKSLASH {
            let after_one = first.skip(1);
            assert(after_one.skip(1) =~= inner);
            assert(guarded(after_one, SLASH) == seq![BACKSLASH] + guarded(inner, SLASH));
            assert(seq![BACKSLASH] + (seq![BACKSLASH] + guarded(inner, SLASH)) =~= seq![
                BACKSLASH,
                BACKSLASH,
            ] + guarded(inner, SLASH));
        } else {
            assert(first.skip(1) =~= inner);
        }
    }
}

/// Once the slashes of an escaped payload are unescaped, what is left is the
/// payload with every `\` guarded.
proof fn lemma_collapse_slashes_of_escape(s: Seq<u8>)
    ensures
        collapse(escape(s), SLASH) == guarded(s, BACKSLASH),
    decreases s.len(),
{
    if s.len() > 0 {
        let rest = s.skip(1);
        let tail = escape(rest);
        lemma_collapse_slashes_of_escape(rest);
        let e = escape(s);
        if s[0] == SLASH {
            assert(e.skip(2) =~= tail);
        } else if s[0] == BACKSLASH {
            let mid = e.skip(1);
            assert(mid.skip(1) =~= tail);
            assert(collapse(mid, SLASH) == seq![BACKSLASH] + collapse(tail, SLASH));
            assert(seq![BACKSLASH] + (seq![BACKSLASH] + collapse(tail, SLASH)) =~= seq![
                BACKSLASH,
                BACKSLASH,
            ] + collapse(tail, SLASH));
        } else {
            assert(e.skip(1) =~= tail);
        }
    }
}

/// Unescaping the backslashes of a payload whose backslashes are guarded
/// gives the payload.
proof fn lemma_collapse_doubled_backslashes(s: Seq<u8>)
    ensures
        collapse(guarded(s, BACKSLASH), BACKSLASH) == s,
    decreases s.len(),
{
    if s.len() > 0 {
        let rest = s.skip(1);
        lemma_collapse_doubled_backslashes(rest);
        let d = guarded(s, BACKSLASH);
        if s[0] == BACKSLASH {
            assert(d.skip(2) =~= guarded(rest, BACKSLASH));
        } else {
            assert(d.skip(1) =~= guarded(rest, BACKSLASH));
        }
    }
}

/// Unescaping undoes escaping, whatever the payload holds.
pub proof fn lemma_unescape_escape(s: Seq<u8>)
    ensures
        unescape(escape(s)) == s,
{
    lemma_collapse_slashes_of_escape(s);
    lemma_collapse_doubled_backslashes(s);
}

/// In an escaped payload every `/` stands directly behind a `\`.
pub proof fn lemma_escape_has_no_bare_slash(s: Seq<u8>)
    ensures
        !has_bare_slash(escape(s)),
    decreases s.len(),
{
    if s.len() > 0 {
        let rest = s.skip(1);
        let tail = escape(rest);
        let e = escape(s);
        lemma_escape_has_no_bare_slash(rest);
        let k = escape_byte(s[0]).len() as int;
        assert forall|i: int| !bare_slash_at(e, i) by {
            if k <= i < e.len() {
                assert(!bare_slash_at(tail, i - k));
                if i > k {
                    assert(e[i - 1] == tail[i - k - 1]);
                }
            }
        }
    }
}

/// Escaping adds only `\`, so it keeps a payload within ASCII.
pub proof fn lemma_escape_is_ascii(s: Seq<u8>)
    requires
        is_ascii(s),
    ensures
        is_ascii(escape(s)),
    decreases s.len(),
{
    if s.len() > 0 {
        let rest = s.skip(1);
        assert forall|i: int| 0 <= i < rest.len() implies #[trigger] rest[i] < 0x80 by {
            assert(rest[i] == s[i + 1]);
        }
        lemma_escape_is_ascii(rest);
        let tail = escape(rest);
        let e = escape(s);
        let k = escape_byte(s[0]).len() as int;
        assert forall|i: int| 0 <= i < e.len() implies #[trigger] e[i] < 0x80 by {
            if i >= k {
                assert(e[i] == tail[i - k]);
            }
        }
    }
}

/// Unescaping drops bytes and adds none, so it keeps a field within ASCII.
pub proof fn lemma_collapse_is_ascii(s: Seq<u8>, second: u8)
    requires
        is_ascii(s),
    ensures
        is_ascii(collapse(s, second)),
        collapse(s, second).len() <= s.len(),
    decreases s.len(),
{
    if s.len() > 0 {
        let k: int = if s.len() >= 2 && s[0] == BACKSLASH && s[1] == second { 2 } else { 1 };
        let rest = s.skip(k);
        assert forall|i: int| 0 <= i < rest.len() implies #[trigger] rest[i] < 0x80 by {
            assert(rest[i] == s[i + k]);
        }
        lemma_collapse_is_ascii(rest, second);
        let c = collapse(s, second);
        assert forall|i: int| 0 <= i < c.len() implies #[trigger] c[i] < 0x80 by {
            if i >= 1 {
                assert(c[i] == collapse(rest, second)[i - 1]);
            }
        }
    }
}

pub proof fn lemma_unescape_is_ascii(s: Seq<u8>)
    requires
        is_ascii(s),
    ensures
        is_ascii(unescape(s)),
        unescape(s).len() <= s.len(),
{
    lemma_collapse_is_ascii(s, SLASH);
    lemma_collapse_is_ascii(collapse(s, SLASH), BACKSLASH);
}

/// Appends the escaped form of `payload` to `out`.
pub fn push_escaped(out: &mut Vec<u8>, payload: &[u8])
    ensures
        final(out)@ == old(out)@ + escape(payload@),
{
    let mut i: usize = 0;
    proof {
        assert(payload@.skip(0) =~= payload@);
    }
    while i < payload.len()
        invariant
            i <= payload.len(),
            out@ + escape(payload@.skip(i as int)) == old(out)@ + escape(payload@),
        decreases payload.len() - i,
    {
        let b: u8 = payload[i];
        let ghost before = out@;
        let ghost rest = payload@.skip(i as int);
        proof {
            assert(rest.skip(1) =~= payload@.skip(i + 1));
        }
        if b == SLASH || b == BACKSLASH {
            out.push(BACKSLASH);
        }
        out.push(b);
        proof {
            assert((before + escape_byte(b)) + escape(rest.skip(1)) =~= before + (escape_byte(b)
                + escape(rest.skip(1))));
        }
        i += 1;
    }
    proof {
        assert(payload@.skip(i as int) =~= Seq::<u8>::empty());
    }
}

/// One pass of unescaping over `field`.
pub fn collapse_pairs(field: &[u8], second: u8) -> (out: Vec<u8>)
    ensures
        out@ == collapse(field@, second),
{
    let mut out: Vec<u8> = Vec::new();
    let mut i: usize = 0;
    proof {
        assert(field@.skip(0) =~= field@);
    }
    while i < field.len()
        invariant
            i <= field.len(),
            out@ + collapse(field@.skip(i as int), second) == collapse(field@, second),
        decreases field.len() - i,
    {
        let ghost before = out@;
        let ghost rest = field@.skip(i as int);
        proof {
            assert(rest[0] == field@[i as int]);
        }
        if field[i] == BACKSLASH && i + 1 < field.len() && field[i + 1] == second {
            out.push(second);
            proof {
                assert(rest.skip(2) =~= field@.skip(i + 2));
                assert((before + seq![second]) + collapse(rest.skip(2), second) =~= before + (seq![
                    second,
                ] + collapse(rest.skip(2), second)));
            }
            i += 2;
        } else {
            let b: u8 = field[i];
            out.push(b);
            proof {
                assert(rest.skip(1) =~= field@.skip(i + 1));
                assert((before + seq![b]) + collapse(rest.skip(1), second) =~= before + (seq![b]
                    + collapse(rest.skip(1), second)));
            }
            i += 1;
        }
    }
    proof {
        assert(field@.skip(i as int) =~= Seq::<u8>::empty());
    }
    out
}

/// The payload that `field` stands for.
pub fn unescape_field(field: &[u8]) -> (out: Vec<u8>)
    ensures
        out@ == unescape(field@),
{
    let slashes_done = collapse_pairs(field, SLASH);
    collapse_pairs(slashes_done.as_slice(), BACKSLASH)
}

/// Whether `field` holds a `/` without a `\` directly before it.
pub fn find_bare_slash(field: &[u8]) -> (found: bool)
    ensures
        found == has_bare_slash(field@),
{
    let mut i: usize = 0;
    while i < field.len()
        invariant
            i <= field.len(),
            forall|j: int| 0 <= j < i ==> !bare_slash_at(field@, j),
        decreases field.len() - i,
    {
        if field[i] == SLASH && (i == 0 || field[i - 1] != BACKSLASH) {
            proof {
                assert(bare_slash_at(field@, i as int));
            }
            return true;
        }
        i += 1;
    }
    false
}

} // verus!
