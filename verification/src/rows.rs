//! Splitting input rows into tab-separated fields.

use vstd::prelude::*;
use vstd::string::StringSliceAdditionalSpecFns;
use vstd::utf8::{
    valid_utf8, is_char_boundary, encode_utf8_valid_utf8, valid_utf8_split,
    is_char_boundary_iff_not_is_continuation_byte, is_char_boundary_start_end_of_seq,
};
use crate::bytes::{split_once, split_all, lemma_split_once_at, lemma_split_once_none,
    lemma_split_once_shrinks};
use crate::labels::utf8_bytes;

verus! {

/// The UTF-8 bytes of each string in a sequence.
pub open spec fn strings_bytes(v: Seq<String>) -> Seq<Seq<u8>> {
    v.map_values(|x: String| utf8_bytes(x@))
}

/// The fields of one row: the byte stretches between tab bytes.
pub open spec fn row_fields(line: Seq<u8>) -> Seq<Seq<u8>> {
    split_all(line, 0x09)
}

/// Cuts `s` at its first tab: the field before it and the rest after it.
fn split_first_tab(s: &str) -> (r: Option<(String, &str)>)
    ensures
        match r {
            None => split_once(s.spec_bytes(), 0x09) is None,
            Some(p) => {
                &&& split_once(s.spec_bytes(), 0x09) == Some(
                    (utf8_bytes(p.0@), p.1.spec_bytes()),
                )
                &&& p.1.spec_bytes().len() < s.spec_bytes().len()
            },
        },
{
    let b = s.as_bytes();
    let n = b.len();
    let ghost bs = s.spec_bytes();
    proof {
        crate::labels::lemma_str_bytes_valid(s);
    }
    let mut i: usize = 0;
    while i < n
        invariant
            i <= n,
            n == bs.len(),
            b@ == bs,
            bs == s.spec_bytes(),
            valid_utf8(bs),
            forall|k: int| 0 <= k < i ==> bs[k] != 0x09,
        decreases n - i,
    {
        if b[i] == 0x09 {
            proof {
                lemma_split_once_at(bs, 0x09, i as int);
                lemma_split_once_shrinks(bs, 0x09);
                is_char_boundary_iff_not_is_continuation_byte(bs, i as int);
                assert(is_char_boundary(bs, i as int));
            }
            let (left, right) = s.split_at(i);
            proof {
                valid_utf8_split(bs, i as int);
                assert(valid_utf8(right.spec_bytes()));
                let rb = right.spec_bytes();
                assert(rb[0] == bs[i as int]);
                assert(rb[0] == 0x09);
                // A tab is a one-byte character, so the byte after it
                // starts a character.
                assert(vstd::utf8::length_of_first_scalar(rb) == 1);
                if rb.len() == 1 {
                    is_char_boundary_start_end_of_seq(rb);
                } else {
                    assert(vstd::utf8::pop_first_scalar(rb) =~= rb.subrange(1, rb.len() as int));
                    assert(is_char_boundary(vstd::utf8::pop_first_scalar(rb), 0));
                    assert(is_char_boundary(rb, 1));
                }
            }
            let (_tab, rest) = right.split_at(1);
            let field = left.to_owned();
            proof {
                assert(left.spec_bytes() =~= bs.take(i as int));
                assert(rest.spec_bytes() =~= bs.skip(i + 1));
                assert(utf8_bytes(field@) == left.spec_bytes());
            }
            return Some((field, rest));
        }
        i = i + 1;
    }
    proof {
        lemma_split_once_none(bs, 0x09);
    }
    None
}

/// Splits one row into its tab-separated fields.
pub fn split_line(line: &str) -> (fields: Vec<String>)
    ensures
        strings_bytes(fields@) == row_fields(line.spec_bytes()),
{
    let mut fields: Vec<String> = Vec::new();
    let mut rest: &str = line;
    loop
        invariant
            row_fields(line.spec_bytes()) == strings_bytes(fields@) + split_all(
                rest.spec_bytes(),
                0x09,
            ),
        decreases rest.spec_bytes().len(),
    {
        let ghost before = strings_bytes(fields@);
        match split_first_tab(rest) {
            None => {
                let ghost rb = rest.spec_bytes();
                let last = rest.to_owned();
                fields.push(last);
                proof {
                    assert(split_all(rb, 0x09) == seq![rb]);
                    assert(strings_bytes(fields@) =~= before.push(utf8_bytes(last@)));
                    assert(strings_bytes(fields@) =~= before + seq![rb]);
                }
                return fields;
            },
            Some(p) => {
                let ghost rb = rest.spec_bytes();
                let (field, tail) = p;
                proof {
                    assert(split_all(rb, 0x09) == seq![utf8_bytes(field@)] + split_all(
                        tail.spec_bytes(),
                        0x09,
                    ));
                }
                fields.push(field);
                rest = tail;
                proof {
                    assert(strings_bytes(fields@) =~= before.push(utf8_bytes(fields@.last()@)));
                    assert(strings_bytes(fields@) + split_all(rest.spec_bytes(), 0x09)
                        =~= before + split_all(rb, 0x09));
                }
            },
        }
    }
}

} // verus!
