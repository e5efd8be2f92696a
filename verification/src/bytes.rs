//! Splitting byte sequences at separator bytes.
//!
//! Input rows are split at tab bytes into fields, and a numeric field is
//! split at the decimal point; both splits are specified here.

use vstd::prelude::*;

verus! {

/// Splits `s` at the first occurrence of `sep`: the part before it and
/// the part after it, or `None` when `sep` does not occur.
pub open spec fn split_once(s: Seq<u8>, sep: u8) -> Option<(Seq<u8>, Seq<u8>)>
    decreases s.len(),
{
    if s.len() == 0 {
        None
    } else if s[0] == sep {
        Some((Seq::empty(), s.drop_first()))
    } else {
        match split_once(s.drop_first(), sep) {
            None => None,
            Some(p) => Some((seq![s[0]] + p.0, p.1)),
        }
    }
}

/// When `sep` does not occur in `s`, `split_once` finds nothing.
pub proof fn lemma_split_once_none(s: Seq<u8>, sep: u8)
    requires
        forall|j: int| 0 <= j < s.len() ==> s[j] != sep,
    ensures
        split_once(s, sep) is None,
    decreases s.len(),
{
    if s.len() != 0 {
        lemma_split_once_none(s.drop_first(), sep);
    }
}

/// When the first occurrence of `sep` in `s` is at index `d`,
/// `split_once` cuts `s` exactly there.
pub proof fn lemma_split_once_at(s: Seq<u8>, sep: u8, d: int)
    requires
        0 <= d < s.len(),
        s[d] == sep,
        forall|j: int| 0 <= j < d ==> s[j] != sep,
    ensures
        split_once(s, sep) == Some((s.take(d), s.skip(d + 1))),
    decreases d,
{
    if d == 0 {
        assert(s.take(0) =~= Seq::<u8>::empty());
        assert(s.skip(1) =~= s.drop_first());
    } else {
        lemma_split_once_at(s.drop_first(), sep, d - 1);
        assert(seq![s[0]] + s.drop_first().take(d - 1) =~= s.take(d));
        assert(s.drop_first().skip(d) =~= s.skip(d + 1));
    }
}

/// A successful `split_once` cuts at the first occurrence of `sep`, and a
/// failed one means `sep` does not occur at all.
pub proof fn lemma_split_once_chars(s: Seq<u8>, sep: u8)
    ensures
        match split_once(s, sep) {
            None => forall|j: int| 0 <= j < s.len() ==> s[j] != sep,
            Some(p) => {
                let d = p.0.len() as int;
                &&& 0 <= d < s.len()
                &&& s[d] == sep
                &&& p.0 == s.take(d)
                &&& p.1 == s.skip(d + 1)
                &&& forall|j: int| 0 <= j < d ==> s[j] != sep
            },
        },
    decreases s.len(),
{
    if s.len() == 0 {
    } else if s[0] == sep {
        assert(s.take(0) =~= Seq::<u8>::empty());
        assert(s.skip(1) =~= s.drop_first());
    } else {
        lemma_split_once_chars(s.drop_first(), sep);
        match split_once(s.drop_first(), sep) {
            None => {
                assert forall|j: int| 0 <= j < s.len() implies s[j] != sep by {
                    if j >= 1 {
                        assert(s[j] == s.drop_first()[j - 1]);
                    }
                }
            },
            Some(q) => {
                let d = q.0.len() as int;
                assert(seq![s[0]] + s.drop_first().take(d) =~= s.take(d + 1));
                assert(s.drop_first().skip(d + 1) =~= s.skip(d + 2));
                assert(s[d + 1] == s.drop_first()[d]);
                assert forall|j: int| 0 <= j < d + 1 implies s[j] != sep by {
                    if j >= 1 {
                        assert(s[j] == s.drop_first()[j - 1]);
                    }
                }
            },
        }
    }
}

/// Splits `s` into the parts between occurrences of `sep`; a sequence
/// with no separator is a single part.
pub open spec fn split_all(s: Seq<u8>, sep: u8) -> Seq<Seq<u8>>
    decreases s.len(),
    via split_all_decreases
{
    match split_once(s, sep) {
        None => seq![s],
        Some(p) => seq![p.0] + split_all(p.1, sep),
    }
}

#[via_fn]
proof fn split_all_decreases(s: Seq<u8>, sep: u8) {
    if split_once(s, sep) is Some {
        lemma_split_once_shrinks(s, sep);
    }
}

/// The two parts of a successful `split_once` are both shorter than the
/// input, the separator byte being consumed.
pub proof fn lemma_split_once_shrinks(s: Seq<u8>, sep: u8)
    requires
        split_once(s, sep) is Some,
    ensures
        split_once(s, sep).unwrap().1.len() < s.len(),
        split_once(s, sep).unwrap().0.len() < s.len(),
    decreases s.len(),
{
    if s.len() != 0 && s[0] != sep {
        if split_once(s.drop_first(), sep) is Some {
            lemma_split_once_shrinks(s.drop_first(), sep);
        }
    }
}

} // verus!
