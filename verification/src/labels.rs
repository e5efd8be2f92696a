//! Byte-wise lexicographic ordering of node labels.
//!
//! Node labels are strings; the pruning engine breaks weight ties by the
//! lexicographically smallest label, comparing the UTF-8 bytes of the two
//! labels, which is the order `String` comparison uses.

use vstd::prelude::*;
use vstd::string::StringSliceAdditionalSpecFns;

verus! {

/// The UTF-8 bytes of a character sequence; the byte-level identity of a
/// `String` value throughout this crate's contracts.
pub open spec fn utf8_bytes(s: Seq<char>) -> Seq<u8> {
    vstd::utf8::encode_utf8(s)
}

/// UTF-8 encoding distributes over concatenation.
pub proof fn lemma_utf8_concat(a: Seq<char>, b: Seq<char>)
    ensures
        utf8_bytes(a + b) == utf8_bytes(a) + utf8_bytes(b),
    decreases a.len(),
{
    if a.len() == 0 {
        assert(a + b =~= b);
        assert(utf8_bytes(a) + utf8_bytes(b) =~= utf8_bytes(b));
    } else {
        assert((a + b).drop_first() =~= a.drop_first() + b);
        lemma_utf8_concat(a.drop_first(), b);
        assert((a + b)[0] == a[0]);
        assert(vstd::utf8::encode_scalar(a[0] as u32) + (utf8_bytes(a.drop_first()) + utf8_bytes(
            b)) =~= (vstd::utf8::encode_scalar(a[0] as u32) + utf8_bytes(a.drop_first()))
            + utf8_bytes(b));
    }
}

/// Two strings with the same UTF-8 bytes are the same character sequence.
pub proof fn lemma_utf8_injective(a: Seq<char>, b: Seq<char>)
    requires
        utf8_bytes(a) == utf8_bytes(b),
    ensures
        a == b,
{
    broadcast use vstd::utf8::encode_utf8_decode_utf8;

    assert(vstd::utf8::decode_utf8(utf8_bytes(a)) == a);
    assert(vstd::utf8::decode_utf8(utf8_bytes(b)) == b);
}

/// Lexicographic "less than or equal" on byte sequences.
pub open spec fn lex_le(a: Seq<u8>, b: Seq<u8>) -> bool
    decreases a.len(),
{
    if a.len() == 0 {
        true
    } else if b.len() == 0 {
        false
    } else if a[0] < b[0] {
        true
    } else if a[0] > b[0] {
        false
    } else {
        lex_le(a.drop_first(), b.drop_first())
    }
}

/// `lex_le` relates every pair of byte sequences one way or the other.
pub proof fn lemma_lex_le_total(a: Seq<u8>, b: Seq<u8>)
    ensures
        lex_le(a, b) || lex_le(b, a),
    decreases a.len(),
{
    if a.len() != 0 && b.len() != 0 && a[0] == b[0] {
        lemma_lex_le_total(a.drop_first(), b.drop_first());
    }
}

/// `lex_le` is transitive.
pub proof fn lemma_lex_le_transitive(a: Seq<u8>, b: Seq<u8>, c: Seq<u8>)
    requires
        lex_le(a, b),
        lex_le(b, c),
    ensures
        lex_le(a, c),
    decreases a.len(),
{
    if a.len() != 0 && b.len() != 0 && c.len() != 0 && a[0] == b[0] && b[0] == c[0] {
        lemma_lex_le_transitive(a.drop_first(), b.drop_first(), c.drop_first());
    }
}

/// The bytes of a string slice are valid UTF-8.
pub proof fn lemma_str_bytes_valid(s: &str)
    ensures
        vstd::utf8::valid_utf8(s.spec_bytes()),
{
    broadcast use vstd::utf8::encode_utf8_valid_utf8;

    assert(s.spec_bytes() == vstd::utf8::encode_utf8(s@));
}

/// Strict lexicographic order on byte sequences.
pub open spec fn lex_lt(a: Seq<u8>, b: Seq<u8>) -> bool {
    lex_le(a, b) && a != b
}

/// Compares two strings by their UTF-8 bytes.
pub fn str_le(a: &str, b: &str) -> (r: bool)
    ensures
        r == lex_le(a.spec_bytes(), b.spec_bytes()),
{
    let ab = a.as_bytes();
    let bb = b.as_bytes();
    let mut i: usize = 0;
    assert(ab@.skip(0) =~= ab@ && bb@.skip(0) =~= bb@);
    loop
        invariant
            i <= ab@.len(),
            i <= bb@.len(),
            ab@ == a.spec_bytes(),
            bb@ == b.spec_bytes(),
            lex_le(ab@.skip(i as int), bb@.skip(i as int)) == lex_le(ab@, bb@),
        decreases ab@.len() - i,
    {
        let ghost sa = ab@.skip(i as int);
        let ghost sb = bb@.skip(i as int);
        if i == ab.len() {
            assert(sa.len() == 0);
            return true;
        }
        if i == bb.len() {
            assert(sb.len() == 0);
            return false;
        }
        assert(sa[0] == ab@[i as int] && sb[0] == bb@[i as int]);
        if ab[i] < bb[i] {
            return true;
        }
        if ab[i] > bb[i] {
            return false;
        }
        assert(sa.drop_first() =~= ab@.skip(i + 1 as int));
        assert(sb.drop_first() =~= bb@.skip(i + 1 as int));
        i = i + 1;
    }
}

/// Tests two strings for equality of their UTF-8 bytes.
pub fn str_eq(a: &str, b: &str) -> (r: bool)
    ensures
        r == (a.spec_bytes() == b.spec_bytes()),
{
    let ab = a.as_bytes();
    let bb = b.as_bytes();
    if ab.len() != bb.len() {
        assert(ab@ != bb@);
        return false;
    }
    let n = ab.len();
    let mut i: usize = 0;
    while i < n
        invariant
            i <= n,
            n == ab@.len() == bb@.len(),
            ab@ == a.spec_bytes(),
            bb@ == b.spec_bytes(),
            forall|j: int| 0 <= j < i ==> ab@[j] == bb@[j],
        decreases n - i,
    {
        if ab[i] != bb[i] {
            return false;
        }
        i = i + 1;
    }
    assert(ab@ =~= bb@);
    true
}

} // verus!
