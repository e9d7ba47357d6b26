//! Runs of bytes: searching and comparing them.

use vstd::prelude::*;

verus! {

/// Whether every byte is below 128.
pub open spec fn is_ascii(s: Seq<u8>) -> bool {
    forall|i: int| 0 <= i < s.len() ==> #[trigger] s[i] < 0x80
}

/// Whether every byte of `bytes` is below 128.
pub fn all_ascii(bytes: &[u8]) -> (ok: bool)
    ensures
        ok == is_ascii(bytes@),
{
    let mut i: usize = 0;
    while i < bytes.len()
        invariant
            i <= bytes.len(),
            forall|j: int| 0 <= j < i ==> #[trigger] bytes@[j] < 0x80,
        decreases bytes.len() - i,
    {
        if bytes[i] >= 0x80 {
            return false;
        }
        i += 1;
    }
    true
}

/// The index of the first `byte` of `s`, or the length of `s` if it has none.
pub open spec fn first_of(s: Seq<u8>, byte: u8) -> int
    decreases s.len(),
{
    if s.len() == 0 || s[0] == byte {
        0
    } else {
        1 + first_of(s.skip(1), byte)
    }
}

/// Where the first `byte` of `s` stands: no `byte` before it, and a `byte`
/// there unless `s` has none.
pub proof fn lemma_first_of(s: Seq<u8>, byte: u8)
    ensures
        0 <= first_of(s, byte) <= s.len(),
        forall|j: int| 0 <= j < first_of(s, byte) ==> s[j] != byte,
        first_of(s, byte) < s.len() ==> s[first_of(s, byte)] == byte,
    decreases s.len(),
{
    if s.len() != 0 && s[0] != byte {
        let rest = s.skip(1);
        lemma_first_of(rest, byte);
        assert forall|j: int| 0 <= j < first_of(s, byte) implies s[j] != byte by {
            if j > 0 {
                assert(rest[j - 1] == s[j]);
            }
        }
    }
}

/// The first `byte` of `s` stands at `k` if there is none before `k` and
/// one at `k`, or `k` is where `s` ends.
pub proof fn lemma_first_of_at(s: Seq<u8>, byte: u8, k: int)
    requires
        0 <= k <= s.len(),
        forall|j: int| 0 <= j < k ==> s[j] != byte,
        k < s.len() ==> s[k] == byte,
    ensures
        first_of(s, byte) == k,
    decreases k,
{
    if k > 0 {
        let rest = s.skip(1);
        assert forall|j: int| 0 <= j < k - 1 implies rest[j] != byte by {
            assert(rest[j] == s[j + 1]);
        }
        lemma_first_of_at(rest, byte, k - 1);
    }
}

/// The index of the first `byte` of `s` at or behind `from`, or the length
/// of `s`.
pub fn find_byte(s: &[u8], from: usize, byte: u8) -> (k: usize)
    requires
        from <= s.len(),
    ensures
        from <= k <= s.len(),
        k - from == first_of(s@.skip(from as int), byte),
        k < s.len() ==> s@[k as int] == byte,
{
    let mut k: usize = from;
    while k < s.len() && s[k] != byte
        invariant
            from <= k <= s.len(),
            forall|j: int| from <= j < k ==> s@[j] != byte,
        decreases s.len() - k,
    {
        k += 1;
    }
    proof {
        let rest = s@.skip(from as int);
        assert forall|j: int| 0 <= j < k - from implies rest[j] != byte by {
            assert(rest[j] == s@[j + from]);
        }
        lemma_first_of_at(rest, byte, k - from);
    }
    k
}

/// Whether two runs of bytes are the same.
pub fn same_bytes(a: &[u8], b: &[u8]) -> (same: bool)
    ensures
        same == (a@ == b@),
{
    if a.len() != b.len() {
        return false;
    }
    let mut i: usize = 0;
    while i < a.len()
        invariant
            i <= a.len(),
            a.len() == b.len(),
            forall|j: int| 0 <= j < i ==> a@[j] == b@[j],
        decreases a.len() - i,
    {
        if a[i] != b[i] {
            return false;
        }
        i += 1;
    }
    proof {
        assert(a@ =~= b@);
    }
    true
}

/// The order of a dictionary on runs of bytes: the first byte in which two
/// runs differ decides, and a run comes before every run that it begins.
pub open spec fn lex_less(a: Seq<u8>, b: Seq<u8>) -> bool
    decreases a.len(),
{
    if b.len() == 0 {
        false
    } else if a.len() == 0 {
        true
    } else if a[0] != b[0] {
        a[0] < b[0]
    } else {
        lex_less(a.skip(1), b.skip(1))
    }
}

/// Of two runs one comes before the other, or they are the same.
pub proof fn lemma_lex_total(a: Seq<u8>, b: Seq<u8>)
    ensures
        lex_less(a, b) || lex_less(b, a) || a == b,
        !(lex_less(a, b) && lex_less(b, a)),
        !lex_less(a, a),
    decreases a.len(),
{
    if a.len() > 0 && b.len() > 0 && a[0] == b[0] {
        lemma_lex_total(a.skip(1), b.skip(1));
        if a.skip(1) == b.skip(1) {
            assert(a =~= seq![a[0]] + a.skip(1));
        }
    } else if a.len() == 0 && b.len() == 0 {
        assert(a =~= b);
    }
    if a.len() > 0 {
        lemma_lex_total(a.skip(1), a.skip(1));
    }
}

/// What comes before a run comes before all that the run comes before.
pub proof fn lemma_lex_transitive(a: Seq<u8>, b: Seq<u8>, c: Seq<u8>)
    requires
        lex_less(a, b),
        lex_less(b, c),
    ensures
        lex_less(a, c),
    decreases a.len(),
{
    if a.len() > 0 && b.len() > 0 && c.len() > 0 && a[0] == b[0] && b[0] == c[0] {
        lemma_lex_transitive(a.skip(1), b.skip(1), c.skip(1));
    }
}

/// Whether `a` comes before `b` in the order of a dictionary.
pub fn bytes_less(a: &[u8], b: &[u8]) -> (less: bool)
    ensures
        less == lex_less(a@, b@),
{
    let mut i: usize = 0;
    proof {
        assert(a@.skip(0) =~= a@);
        assert(b@.skip(0) =~= b@);
    }
    while i < a.len() && i < b.len() && a[i] == b[i]
        invariant
            i <= a.len(),
            i <= b.len(),
            lex_less(a@.skip(i as int), b@.skip(i as int)) == lex_less(a@, b@),
        decreases a.len() - i,
    {
        proof {
            assert(a@.skip(i as int).skip(1) =~= a@.skip(i + 1));
            assert(b@.skip(i as int).skip(1) =~= b@.skip(i + 1));
        }
        i += 1;
    }
    if i == b.len() {
        false
    } else if i == a.len() {
        true
    } else {
        a[i] < b[i]
    }
}

} // verus!
