//! Parsing and rounding of decimal weight fields.
//!
//! A weight field holds an optionally signed decimal number, or a "NaN"
//! marker.  The number is rounded to a configured count of decimal digits,
//! half away from zero, and represented exactly as a scaled integer: the
//! rounded value times ten to the precision.

use vstd::prelude::*;
use vstd::string::StringSliceAdditionalSpecFns;
use crate::bytes::{split_once, lemma_split_once_at, lemma_split_once_none, lemma_split_once_chars};
use crate::MAX_SCALED_WEIGHT;
use crate::labels::{utf8_bytes, lemma_utf8_concat};

verus! {

/// A parsed weight field: either the NaN marker or a scaled value.
#[derive(Clone, Copy, Debug, PartialEq, Eq, Structural)]
pub enum ParsedWeight {
    NotANumber,
    Value(i64),
}

/// Mathematical counterpart of `ParsedWeight`, with an unbounded value.
pub enum WeightSpec {
    Nan,
    Num(int),
}

pub open spec fn is_digit(b: u8) -> bool {
    0x30 <= b <= 0x39
}

pub open spec fn digit_val(b: u8) -> int {
    b - 0x30
}

pub open spec fn all_digits(s: Seq<u8>) -> bool {
    forall|i: int| 0 <= i < s.len() ==> is_digit(#[trigger] s[i])
}

/// The value of a string of decimal digits, most significant first.
pub open spec fn digits_val(s: Seq<u8>) -> int
    decreases s.len(),
{
    if s.len() == 0 {
        0
    } else {
        10 * digits_val(s.drop_last()) + digit_val(s.last())
    }
}

pub open spec fn pow10(n: nat) -> int
    decreases n,
{
    if n == 0 {
        1
    } else {
        10 * pow10((n - 1) as nat)
    }
}

/// ASCII upper-case letters folded to lower case; other bytes unchanged.
pub open spec fn lower_byte(b: u8) -> u8 {
    if 0x41 <= b <= 0x5a {
        (b + 0x20) as u8
    } else {
        b
    }
}

/// The three bytes of "nan" in any case mixture.
pub open spec fn is_nan_bytes(s: Seq<u8>) -> bool {
    s.len() == 3 && lower_byte(s[0]) == 0x6e && lower_byte(s[1]) == 0x61 && lower_byte(s[2])
        == 0x6e
}

/// A leading sign byte, if any, and the rest.
pub open spec fn strip_sign(s: Seq<u8>) -> (bool, Seq<u8>) {
    if s.len() > 0 && s[0] == 0x2d {
        (true, s.drop_first())
    } else if s.len() > 0 && s[0] == 0x2b {
        (false, s.drop_first())
    } else {
        (false, s)
    }
}

/// The integer and fraction digit strings of an unsigned decimal body:
/// split at the only decimal point, or all integer digits.
pub open spec fn dec_body_parts(body: Seq<u8>) -> Option<(Seq<u8>, Seq<u8>)> {
    match split_once(body, 0x2e) {
        None => Some((body, Seq::empty())),
        Some(p) => if split_once(p.1, 0x2e) is Some {
            None
        } else {
            Some(p)
        },
    }
}

/// The fraction digits rounded to `p` places, as an integer in units of
/// ten to the minus `p`: short fractions are zero-padded, and the first
/// dropped digit rounds half away from zero.
pub open spec fn round_frac(fp: Seq<u8>, p: nat) -> int {
    if fp.len() <= p {
        digits_val(fp) * pow10((p - fp.len()) as nat)
    } else {
        digits_val(fp.take(p as int)) + if digit_val(fp[p as int]) >= 5 {
            1int
        } else {
            0int
        }
    }
}

/// The magnitude of the decimal with digits `ip` before and `fp` after the
/// point, rounded to `p` places and scaled by ten to the `p`.
pub open spec fn scaled_mag(ip: Seq<u8>, fp: Seq<u8>, p: nat) -> int {
    digits_val(ip) * pow10(p) + round_frac(fp, p)
}

/// What parsing a weight field yields: `None` for a field that is not an
/// optionally signed decimal number or NaN marker, or whose scaled
/// magnitude exceeds `MAX_SCALED_WEIGHT`.
pub open spec fn spec_parse_weight(s: Seq<u8>, p: nat) -> Option<WeightSpec> {
    let (neg, body) = strip_sign(s);
    if is_nan_bytes(body) {
        Some(WeightSpec::Nan)
    } else {
        match dec_body_parts(body) {
            None => None,
            Some(parts) => {
                let (ip, fp) = parts;
                if all_digits(ip) && all_digits(fp) && ip.len() + fp.len() >= 1 {
                    let m = scaled_mag(ip, fp, p);
                    if m > MAX_SCALED_WEIGHT as int {
                        None
                    } else {
                        Some(WeightSpec::Num(if neg { -m } else { m }))
                    }
                } else {
                    None
                }
            },
        }
    }
}

/// The executable form of a parse result; defined wherever the scaled
/// magnitude is within `MAX_SCALED_WEIGHT`.
pub open spec fn weight_to_exec(w: Option<WeightSpec>) -> Option<ParsedWeight> {
    match w {
        None => None,
        Some(WeightSpec::Nan) => Some(ParsedWeight::NotANumber),
        Some(WeightSpec::Num(v)) => Some(ParsedWeight::Value(v as i64)),
    }
}

pub proof fn lemma_pow10_pos(n: nat)
    ensures
        pow10(n) >= 1,
    decreases n,
{
    if n > 0 {
        lemma_pow10_pos((n - 1) as nat);
    }
}

pub proof fn lemma_pow10_add(a: nat, b: nat)
    ensures
        pow10(a + b) == pow10(a) * pow10(b),
    decreases a,
{
    if a == 0 {
        assert(pow10(0 + b) == 1 * pow10(b)) by {
            assert(0 + b == b);
        }
    } else {
        lemma_pow10_add((a - 1) as nat, b);
        assert((a - 1) as nat + b == (a + b - 1) as nat);
        assert(pow10(a + b) == 10 * (pow10((a - 1) as nat) * pow10(b)));
        assert(10 * (pow10((a - 1) as nat) * pow10(b)) == (10 * pow10((a - 1) as nat)) * pow10(b))
            by (nonlinear_arith);
    }
}

pub proof fn lemma_digits_val_nonneg(s: Seq<u8>)
    requires
        all_digits(s),
    ensures
        digits_val(s) >= 0,
    decreases s.len(),
{
    if s.len() > 0 {
        assert(all_digits(s.drop_last())) by {
            assert(forall|i: int|
                0 <= i < s.len() - 1 ==> #[trigger] s.drop_last()[i] == s[i]);
        }
        lemma_digits_val_nonneg(s.drop_last());
    }
}

/// The value of a digit string is below ten to its length.
pub proof fn lemma_digits_val_upper(s: Seq<u8>)
    requires
        all_digits(s),
    ensures
        digits_val(s) < pow10(s.len()),
    decreases s.len(),
{
    if s.len() == 0 {
    } else {
        assert(all_digits(s.drop_last())) by {
            assert(forall|i: int|
                0 <= i < s.len() - 1 ==> #[trigger] s.drop_last()[i] == s[i]);
        }
        lemma_digits_val_upper(s.drop_last());
        assert(pow10(s.len()) == 10 * pow10((s.len() - 1) as nat));
        assert(digits_val(s.drop_last()) <= pow10((s.len() - 1) as nat) - 1);
        assert(10 * digits_val(s.drop_last()) <= 10 * (pow10((s.len() - 1) as nat) - 1))
            by (nonlinear_arith)
            requires digits_val(s.drop_last()) <= pow10((s.len() - 1) as nat) - 1;
    }
}

/// Splitting a digit string splits its value by place value.
pub proof fn lemma_digits_val_append(a: Seq<u8>, b: Seq<u8>)
    ensures
        digits_val(a + b) == digits_val(a) * pow10(b.len()) + digits_val(b),
    decreases b.len(),
{
    if b.len() == 0 {
        assert(a + b =~= a);
        assert(digits_val(a) * 1 == digits_val(a)) by (nonlinear_arith);
    } else {
        lemma_digits_val_append(a, b.drop_last());
        assert((a + b).drop_last() =~= a + b.drop_last());
        assert((a + b).last() == b.last());
        // digits_val(a + b) == 10 * (dv(a) * pow10(len-1) + dv(b.drop_last())) + last
        let m = pow10((b.len() - 1) as nat);
        assert(10 * (digits_val(a) * m + digits_val(b.drop_last())) == digits_val(a) * (10 * m)
            + 10 * digits_val(b.drop_last())) by (nonlinear_arith);
        assert(pow10(b.len()) == 10 * m);
    }
}

/// A digit string whose digits are all zero has value zero.
pub proof fn lemma_digits_val_zeros(s: Seq<u8>)
    requires
        forall|i: int| 0 <= i < s.len() ==> s[i] == 0x30,
    ensures
        digits_val(s) == 0,
    decreases s.len(),
{
    if s.len() > 0 {
        assert(forall|i: int|
            0 <= i < s.len() - 1 ==> #[trigger] s.drop_last()[i] == s[i]);
        lemma_digits_val_zeros(s.drop_last());
    }
}

/// A digit string with a nonzero leading digit has value at least ten to
/// one less than its length.
pub proof fn lemma_digits_val_lower(s: Seq<u8>)
    requires
        all_digits(s),
        s.len() >= 1,
        s[0] != 0x30,
    ensures
        digits_val(s) >= pow10((s.len() - 1) as nat),
    decreases s.len(),
{
    if s.len() == 1 {
        assert(digit_val(s[0]) >= 1);
        assert(digits_val(s) == 10 * digits_val(s.drop_last()) + digit_val(s.last()));
        assert(s.drop_last().len() == 0);
    } else {
        assert(all_digits(s.drop_last()) && s.drop_last()[0] == s[0]) by {
            assert(forall|i: int|
                0 <= i < s.len() - 1 ==> #[trigger] s.drop_last()[i] == s[i]);
        }
        lemma_digits_val_lower(s.drop_last());
        let m = pow10((s.len() - 2) as nat);
        assert(digits_val(s.drop_last()) >= m);
        assert(10 * digits_val(s.drop_last()) >= 10 * m) by (nonlinear_arith)
            requires digits_val(s.drop_last()) >= m;
        assert(pow10((s.len() - 1) as nat) == 10 * m);
        assert(digit_val(s.last()) >= 0);
    }
}

pub proof fn lemma_pow10_mono(a: nat, b: nat)
    requires
        a <= b,
    ensures
        pow10(a) <= pow10(b),
{
    lemma_pow10_add(a, (b - a) as nat);
    lemma_pow10_pos(a);
    lemma_pow10_pos((b - a) as nat);
    assert(pow10(a) * pow10((b - a) as nat) >= pow10(a) * 1) by (nonlinear_arith)
        requires pow10(a) >= 1 && pow10((b - a) as nat) >= 1;
}

/// Numeric values of the powers of ten the parser's bounds rest on.
pub proof fn lemma_pow10_values()
    ensures
        pow10(15) == MAX_SCALED_WEIGHT as int,
        pow10(16) == 10 * (MAX_SCALED_WEIGHT as int),
{
    assert(pow10(0) == 1);
    assert(pow10(1) == 10);
    assert(pow10(2) == 100);
    assert(pow10(3) == 1000);
    assert(pow10(4) == 10000);
    assert(pow10(5) == 100000);
    assert(pow10(6) == 1000000);
    assert(pow10(7) == 10000000);
    assert(pow10(8) == 100000000);
    assert(pow10(9) == 1000000000);
    assert(pow10(10) == 10000000000);
    assert(pow10(11) == 100000000000);
    assert(pow10(12) == 1000000000000);
    assert(pow10(13) == 10000000000000);
    assert(pow10(14) == 100000000000000);
    assert(pow10(15) == 1000000000000000);
    assert(pow10(16) == 10000000000000000);
}

/// Leading zero digits do not change the value of a digit string.
pub proof fn lemma_digits_val_trim(s: Seq<u8>, z: int)
    requires
        0 <= z <= s.len(),
        forall|k: int| 0 <= k < z ==> s[k] == 0x30,
    ensures
        digits_val(s) == digits_val(s.skip(z)),
{
    let a = s.take(z);
    lemma_digits_val_zeros(a);
    lemma_digits_val_append(a, s.skip(z));
    assert(a + s.skip(z) =~= s);
}

pub proof fn lemma_round_frac_nonneg(fp: Seq<u8>, p: nat)
    requires
        all_digits(fp),
    ensures
        round_frac(fp, p) >= 0,
{
    if fp.len() <= p {
        lemma_digits_val_nonneg(fp);
        lemma_pow10_pos((p - fp.len()) as nat);
        assert(digits_val(fp) * pow10((p - fp.len()) as nat) >= 0) by (nonlinear_arith)
            requires digits_val(fp) >= 0 && pow10((p - fp.len()) as nat) >= 0;
    } else {
        assert(all_digits(fp.take(p as int))) by {
            assert(forall|i: int|
                0 <= i < p ==> #[trigger] fp.take(p as int)[i] == fp[i]);
        }
        lemma_digits_val_nonneg(fp.take(p as int));
    }
}

/// A body with two decimal points has no valid decimal form.
pub proof fn lemma_two_dots_invalid(body: Seq<u8>, d0: int, j: int)
    requires
        0 <= d0 < j < body.len(),
        body[d0] == 0x2e,
        body[j] == 0x2e,
        forall|k: int| 0 <= k < d0 ==> body[k] != 0x2e,
    ensures
        dec_body_parts(body) is None,
{
    lemma_split_once_at(body, 0x2e, d0);
    let fp0 = body.skip(d0 + 1);
    assert(fp0[j - d0 - 1] == body[j]);
    lemma_split_once_chars(fp0, 0x2e);
    if split_once(fp0, 0x2e) is None {
        assert(fp0[j - d0 - 1] != 0x2e);
    }
}

/// A body holding a byte that is neither a digit nor the decimal point
/// has no valid pair of digit strings.
pub proof fn lemma_bad_byte_invalid(body: Seq<u8>, j: int)
    requires
        0 <= j < body.len(),
        !is_digit(body[j]),
        body[j] != 0x2e,
    ensures
        match dec_body_parts(body) {
            None => true,
            Some(p) => !(all_digits(p.0) && all_digits(p.1)),
        },
{
    lemma_split_once_chars(body, 0x2e);
    match split_once(body, 0x2e) {
        None => {
            assert(!all_digits(body));
        },
        Some(q) => {
            let d = q.0.len() as int;
            if j < d {
                assert(q.0[j] == body[j]);
                assert(!all_digits(q.0));
            } else {
                assert(j > d);
                assert(q.1[j - d - 1] == body[j]);
                if split_once(q.1, 0x2e) is None {
                    assert(!all_digits(q.1));
                } else {
                    assert(dec_body_parts(body) is None);
                }
            }
        },
    }
}

/// The decimal form of a body whose only decimal point stands at `d0`
/// between digit strings.
pub proof fn lemma_body_parts_dot(body: Seq<u8>, d0: int)
    requires
        0 <= d0 < body.len(),
        body[d0] == 0x2e,
        forall|k: int| 0 <= k < d0 ==> is_digit(#[trigger] body[k]),
        forall|k: int| d0 < k < body.len() ==> is_digit(#[trigger] body[k]),
    ensures
        dec_body_parts(body) == Some((body.take(d0), body.skip(d0 + 1))),
        all_digits(body.take(d0)),
        all_digits(body.skip(d0 + 1)),
{
    assert(forall|k: int| 0 <= k < d0 ==> #[trigger] body[k] != 0x2e);
    lemma_split_once_at(body, 0x2e, d0);
    let fp = body.skip(d0 + 1);
    assert(all_digits(fp)) by {
        assert(forall|k: int| 0 <= k < fp.len() ==> #[trigger] fp[k] == body[d0 + 1 + k]);
    }
    assert(all_digits(body.take(d0))) by {
        assert(forall|k: int|
            0 <= k < d0 ==> #[trigger] body.take(d0)[k] == body[k]);
    }
    lemma_split_once_none(fp, 0x2e);
}

/// The decimal form of a body of digits without a point.
pub proof fn lemma_body_parts_nodot(body: Seq<u8>)
    requires
        all_digits(body),
    ensures
        dec_body_parts(body) == Some((body, Seq::<u8>::empty())),
        all_digits(Seq::<u8>::empty()),
{
    assert(forall|k: int| 0 <= k < body.len() ==> #[trigger] body[k] != 0x2e);
    lemma_split_once_none(body, 0x2e);
}

/// A decimal with seventeen or more significant digits before the point,
/// counting the precision, scales past the admitted weight bound.
pub proof fn lemma_scaled_mag_over(ip: Seq<u8>, fp: Seq<u8>, p: nat, z: int)
    requires
        all_digits(ip),
        all_digits(fp),
        p <= 12,
        0 <= z < ip.len(),
        forall|k: int| 0 <= k < z ==> ip[k] == 0x30,
        ip[z] != 0x30,
        (ip.len() - z) + p >= 17,
    ensures
        scaled_mag(ip, fp, p) > MAX_SCALED_WEIGHT as int,
{
    let tr = ip.skip(z);
    lemma_digits_val_trim(ip, z);
    assert(all_digits(tr)) by {
        assert(forall|k: int| 0 <= k < tr.len() ==> #[trigger] tr[k] == ip[z + k]);
    }
    assert(tr[0] == ip[z]);
    lemma_digits_val_lower(tr);
    lemma_round_frac_nonneg(fp, p);
    lemma_pow10_pos(p);
    lemma_pow10_add((tr.len() - 1) as nat, p);
    lemma_pow10_mono(16, (tr.len() - 1) as nat + p);
    lemma_pow10_values();
    assert(digits_val(ip) * pow10(p) >= pow10((tr.len() - 1) as nat) * pow10(p))
        by (nonlinear_arith)
        requires
            digits_val(ip) >= pow10((tr.len() - 1) as nat),
            pow10(p) >= 1,
    ;
}

/// The scanned layout of a decimal body within the byte string `bs`:
/// integer digits in `[start, ip_hi)`, fraction digits in `[fp_lo, n)`.
pub open spec fn body_layout(bs: Seq<u8>, start: int, ip_hi: int, fp_lo: int) -> bool {
    &&& 0 <= start <= ip_hi <= fp_lo <= bs.len()
    &&& (fp_lo == ip_hi || fp_lo == ip_hi + 1)
    &&& (fp_lo == ip_hi ==> fp_lo == bs.len())
    &&& dec_body_parts(bs.skip(start)) == Some(
        (bs.subrange(start, ip_hi), bs.subrange(fp_lo, bs.len() as int)),
    )
    &&& all_digits(bs.subrange(start, ip_hi))
    &&& all_digits(bs.subrange(fp_lo, bs.len() as int))
}

/// `None` exactly when the body has no valid pair of digit strings.
pub open spec fn body_invalid(body: Seq<u8>) -> bool {
    match dec_body_parts(body) {
        None => true,
        Some(p) => !(all_digits(p.0) && all_digits(p.1)),
    }
}

/// Scans the body bytes from `start`: on success the integer and fraction
/// digit ranges, otherwise the body is no valid decimal.
fn scan_body(b: &[u8], start: usize) -> (r: Option<(usize, usize)>)
    requires
        start <= b@.len(),
    ensures
        match r {
            None => body_invalid(b@.skip(start as int)),
            Some(pos) => body_layout(b@, start as int, pos.0 as int, pos.1 as int),
        },
{
    let ghost bs = b@;
    let ghost body = bs.skip(start as int);
    let n = b.len();
    let mut has_dot = false;
    let mut dot: usize = 0;
    let mut j = start;
    proof {
        assert(forall|k: int| 0 <= k < body.len() ==> #[trigger] body[k] == bs[start + k]);
    }
    while j < n
        invariant
            start <= j <= n,
            n == bs.len(),
            b@ == bs,
            body == bs.skip(start as int),
            forall|k: int| 0 <= k < body.len() ==> #[trigger] body[k] == bs[start + k],
            has_dot ==> start <= dot < j && bs[dot as int] == 0x2e && (forall|k: int|
                start <= k < dot ==> is_digit(#[trigger] bs[k])) && (forall|k: int|
                dot < k < j ==> is_digit(#[trigger] bs[k])),
            !has_dot ==> forall|k: int| start <= k < j ==> is_digit(#[trigger] bs[k]),
        decreases n - j,
    {
        let c = b[j];
        if c == 0x2e {
            if has_dot {
                proof {
                    lemma_two_dots_invalid(body, dot - start, j - start);
                }
                return None;
            }
            has_dot = true;
            dot = j;
        } else if c < 0x30 || c > 0x39 {
            proof {
                lemma_bad_byte_invalid(body, j - start);
            }
            return None;
        }
        j = j + 1;
    }

    let ip_hi = if has_dot { dot } else { n };
    let fp_lo = if has_dot { dot + 1 } else { n };
    proof {
        let ip = bs.subrange(start as int, ip_hi as int);
        let fp = bs.subrange(fp_lo as int, n as int);
        if has_dot {
            let d0 = dot - start;
            lemma_body_parts_dot(body, d0);
            assert(body.take(d0) =~= ip);
            assert(body.skip(d0 + 1) =~= fp);
        } else {
            lemma_body_parts_nodot(body);
            assert(body =~= ip);
            assert(fp =~= Seq::<u8>::empty());
        }
    }
    Some((ip_hi, fp_lo))
}

/// Accumulates the scaled magnitude of the decimal laid out in `b`, or
/// reports that it exceeds `MAX_SCALED_WEIGHT`.
#[verifier::rlimit(60)]
fn accumulate_mag(b: &[u8], start: usize, ip_hi: usize, fp_lo: usize, precision: u8) -> (r:
    Option<i64>)
    requires
        precision <= 12,
        body_layout(b@, start as int, ip_hi as int, fp_lo as int),
    ensures
        ({
            let m = scaled_mag(
                b@.subrange(start as int, ip_hi as int),
                b@.subrange(fp_lo as int, b@.len() as int),
                precision as nat,
            );
            match r {
                None => m > MAX_SCALED_WEIGHT as int,
                Some(v) => v == m && 0 <= v,
            }
        }),
{
    let ghost bs = b@;
    let n = b.len();
    let p = precision as usize;
    let ghost ip = bs.subrange(start as int, ip_hi as int);
    let ghost fp = bs.subrange(fp_lo as int, n as int);

    // Leading zeros of the integer part carry no value.
    let mut z = start;
    while z < ip_hi && b[z] == 0x30
        invariant
            start <= z <= ip_hi <= n,
            n == bs.len(),
            b@ == bs,
            all_digits(bs.subrange(start as int, ip_hi as int)),
            forall|k: int| start <= k < z ==> bs[k] == 0x30,
        decreases ip_hi - z,
    {
        z = z + 1;
    }
    let sig = ip_hi - z;
    let ghost trimmed = bs.subrange(z as int, ip_hi as int);
    proof {
        assert(forall|k: int| 0 <= k < ip.len() ==> #[trigger] ip[k] == bs[start + k]);
        assert(ip.skip(z - start) =~= trimmed);
        lemma_digits_val_trim(ip, z - start);
        assert(all_digits(trimmed));
    }

    // Too many significant integer digits: the scaled magnitude exceeds
    // the admitted bound whatever the fraction holds.
    if sig > 16 || sig + p >= 17 {
        proof {
            lemma_scaled_mag_over(ip, fp, precision as nat, z - start);
        }
        return None;
    }

    proof {
        lemma_pow10_values();
    }

    // Accumulate the integer digits.
    let mut mag: i64 = 0;
    let mut j = z;
    while j < ip_hi
        invariant
            z <= j <= ip_hi <= n,
            n == bs.len(),
            b@ == bs,
            sig == ip_hi - z,
            sig + p <= 16,
            p <= 12,
            all_digits(bs.subrange(z as int, ip_hi as int)),
            mag == digits_val(bs.subrange(z as int, j as int)),
            0 <= mag < pow10((j - z) as nat),
            pow10(16) == 10 * (MAX_SCALED_WEIGHT as int),
        decreases ip_hi - j,
    {
        let ghost pre = bs.subrange(z as int, j as int);
        let ghost post = bs.subrange(z as int, j + 1 as int);
        proof {
            assert(bs.subrange(z as int, ip_hi as int)[j - z] == bs[j as int]);
            assert(is_digit(bs[j as int]));
            assert(post.drop_last() =~= pre);
            assert(post.last() == bs[j as int]);
            lemma_pow10_mono((j + 1 - z) as nat, 16);
            assert(pow10((j + 1 - z) as nat) == 10 * pow10((j - z) as nat));
        }
        mag = mag * 10 + ((b[j] - 0x30) as i64);
        j = j + 1;
    }
    proof {
        assert(bs.subrange(z as int, ip_hi as int) =~= trimmed);
        assert(mag == digits_val(ip));
        lemma_digits_val_upper(trimmed);
        lemma_pow10_mono(sig as nat, 16);
        assert(fp.take(0) =~= Seq::<u8>::empty());
        assert(digits_val(ip) * pow10(0) == digits_val(ip));
    }

    // Accumulate up to `p` fraction digits.
    let mut cc: usize = 0;
    let mut j = fp_lo;
    while j < n && cc < p
        invariant
            fp_lo <= j <= n,
            n == bs.len(),
            b@ == bs,
            cc == j - fp_lo,
            cc <= p,
            p <= 12,
            sig + p <= 16,
            ip == bs.subrange(start as int, ip_hi as int),
            fp == bs.subrange(fp_lo as int, n as int),
            all_digits(fp),
            mag == digits_val(ip) * pow10(cc as nat) + digits_val(fp.take(cc as int)),
            0 <= mag < pow10((sig + cc) as nat),
            pow10(16) == 10 * (MAX_SCALED_WEIGHT as int),
        decreases n - j,
    {
        let ghost pre = fp.take(cc as int);
        let ghost post = fp.take(cc + 1 as int);
        proof {
            assert(fp[cc as int] == bs[j as int]);
            assert(is_digit(fp[cc as int]));
            assert(post.drop_last() =~= pre);
            assert(post.last() == fp[cc as int]);
            lemma_pow10_mono((sig + cc + 1) as nat, 16);
            assert(pow10((sig + cc + 1) as nat) == 10 * pow10((sig + cc) as nat));
            assert(10 * (digits_val(ip) * pow10(cc as nat)) == digits_val(ip) * (10 * pow10(
                cc as nat))) by (nonlinear_arith);
            assert(pow10((cc + 1) as nat) == 10 * pow10(cc as nat));
        }
        mag = mag * 10 + ((b[j] - 0x30) as i64);
        cc = cc + 1;
        j = j + 1;
    }

    if cc < p {
        // The fraction is shorter than the precision: scale up.
        proof {
            assert(j == n);
            assert(fp.take(cc as int) =~= fp);
            assert(cc == fp.len());
            assert(digits_val(fp) * 1 == digits_val(fp));
        }
        while cc < p
            invariant
                fp.len() <= cc <= p,
                p <= 12,
                sig + p <= 16,
                all_digits(fp),
                mag == digits_val(ip) * pow10(cc as nat) + digits_val(fp) * pow10(
                    (cc - fp.len()) as nat),
                0 <= mag < pow10((sig + cc) as nat),
                pow10(16) == 10 * (MAX_SCALED_WEIGHT as int),
            decreases p - cc,
        {
            proof {
                lemma_pow10_mono((sig + cc + 1) as nat, 16);
                assert(pow10((sig + cc + 1) as nat) == 10 * pow10((sig + cc) as nat));
                assert(10 * (digits_val(ip) * pow10(cc as nat)) == digits_val(ip) * (10 * pow10(
                    cc as nat))) by (nonlinear_arith);
                assert(10 * (digits_val(fp) * pow10((cc - fp.len()) as nat)) == digits_val(fp) * (
                10 * pow10((cc - fp.len()) as nat))) by (nonlinear_arith);
                assert(pow10((cc + 1) as nat) == 10 * pow10(cc as nat));
                assert(pow10((cc + 1 - fp.len()) as nat) == 10 * pow10((cc - fp.len()) as nat));
            }
            mag = mag * 10;
            cc = cc + 1;
        }
        proof {
            assert(mag == scaled_mag(ip, fp, precision as nat));
        }
    } else {
        assert(cc == p);
        if j < n {
            // The first dropped digit rounds half away from zero.
            proof {
                assert(fp[p as int] == bs[j as int]);
                assert(is_digit(fp[p as int]));
                lemma_pow10_mono((sig + cc) as nat, 16);
            }
            if b[j] >= 0x35 {
                mag = mag + 1;
            }
            proof {
                assert(mag == scaled_mag(ip, fp, precision as nat));
            }
        } else {
            proof {
                assert(fp.take(cc as int) =~= fp);
                assert(digits_val(fp) * 1 == digits_val(fp));
                assert(mag == scaled_mag(ip, fp, precision as nat));
            }
        }
    }
    Some(mag)
}

/// Parses one weight field: an optionally signed decimal number, rounded
/// to `precision` decimal places (half away from zero) and scaled by ten
/// to the `precision`, or the NaN marker.  Fields that fit neither form,
/// and numbers whose scaled magnitude exceeds `MAX_SCALED_WEIGHT`, parse
/// to `None`.
pub fn parse_weight(s: &str, precision: u8) -> (r: Option<ParsedWeight>)
    requires
        precision <= 12,
    ensures
        r == weight_to_exec(spec_parse_weight(s.spec_bytes(), precision as nat)),
{
    let b = s.as_bytes();
    let n = b.len();
    let ghost bs = s.spec_bytes();

    // Sign.
    let mut start: usize = 0;
    let mut neg = false;
    if n > 0 && (b[0] == 0x2b || b[0] == 0x2d) {
        neg = b[0] == 0x2d;
        start = 1;
    }
    let ghost body = bs.skip(start as int);
    proof {
        if start == 1 {
            assert(bs.drop_first() =~= bs.skip(1));
        } else {
            assert(bs.skip(0) =~= bs);
        }
        assert(strip_sign(bs) == (neg, body));
        assert(forall|k: int| 0 <= k < body.len() ==> #[trigger] body[k] == bs[start + k]);
    }

    // NaN marker, in any case mixture.
    if n - start == 3 {
        let c0 = b[start];
        let c1 = b[start + 1];
        let c2 = b[start + 2];
        let l0 = if 0x41 <= c0 && c0 <= 0x5a { c0 + 0x20 } else { c0 };
        let l1 = if 0x41 <= c1 && c1 <= 0x5a { c1 + 0x20 } else { c1 };
        let l2 = if 0x41 <= c2 && c2 <= 0x5a { c2 + 0x20 } else { c2 };
        proof {
            assert(body.len() == 3);
            assert(body[0] == bs[start as int]);
            assert(body[1] == bs[start + 1]);
            assert(body[2] == bs[start + 2]);
        }
        if l0 == 0x6e && l1 == 0x61 && l2 == 0x6e {
            proof {
                assert(is_nan_bytes(body));
            }
            return Some(ParsedWeight::NotANumber);
        }
        proof {
            assert(!is_nan_bytes(body));
        }
    }
    proof {
        assert(!is_nan_bytes(body));
    }

    let scanned = scan_body(b, start);
    match scanned {
        None => None,
        Some(pos) => {
            let (ip_hi, fp_lo) = pos;
            let ghost ip = bs.subrange(start as int, ip_hi as int);
            let ghost fp = bs.subrange(fp_lo as int, n as int);
            if ip_hi - start == 0 && n - fp_lo == 0 {
                return None;
            }
            match accumulate_mag(b, start, ip_hi, fp_lo, precision) {
                None => None,
                Some(mag) => {
                    if mag > MAX_SCALED_WEIGHT {
                        None
                    } else {
                        let v: i64 = if neg {
                            -mag
                        } else {
                            mag
                        };
                        Some(ParsedWeight::Value(v))
                    }
                },
            }
        },
    }
}


/// The decimal digits of `n`, most significant first, without leading
/// zeros (a single zero digit for zero).
pub open spec fn dec_digits_of(n: nat) -> Seq<u8>
    decreases n,
{
    if n < 10 {
        seq![(0x30 + n) as u8]
    } else {
        dec_digits_of(n / 10) + seq![(0x30 + (n % 10)) as u8]
    }
}

/// Exactly `p` decimal digits of `n`, zero-padded on the left.
pub open spec fn dec_digits_fixed(n: nat, p: nat) -> Seq<u8>
    decreases p,
{
    if p == 0 {
        Seq::empty()
    } else {
        dec_digits_fixed(n / 10, (p - 1) as nat) + seq![(0x30 + (n % 10)) as u8]
    }
}

/// The decimal rendering of the scaled value `v`: sign, integer digits,
/// and, for positive precision, a point and exactly `p` fraction digits.
pub open spec fn spec_format_scaled(v: int, p: nat) -> Seq<u8> {
    let mag = (if v < 0 { -v } else { v }) as nat;
    let sign: Seq<u8> = if v < 0 { seq![0x2d] } else { Seq::empty() };
    if p == 0 {
        sign + dec_digits_of(mag)
    } else {
        sign + dec_digits_of(mag / (pow10(p) as nat)) + seq![0x2e] + dec_digits_fixed(
            mag % (pow10(p) as nat), p)
    }
}

/// The UTF-8 encoding of a single ASCII character is its byte.
pub proof fn lemma_single_char_bytes(c: char)
    requires
        (c as u32) < 0x80,
    ensures
        utf8_bytes(seq![c]) == seq![(c as u32) as u8],
{
    assert(seq![c].drop_first() =~= Seq::<char>::empty());
    assert(utf8_bytes(Seq::<char>::empty()) =~= Seq::<u8>::empty());
    assert(utf8_bytes(seq![c]) == vstd::utf8::encode_scalar(c as u32) + Seq::<u8>::empty());
    let v = c as u32;
    assert((v & 0x7F) as u8 == v as u8) by (bit_vector)
        requires
            v < 0x80,
    ;
    assert(vstd::utf8::encode_scalar(v) =~= seq![v as u8]);
    assert(vstd::utf8::encode_scalar(v) + Seq::<u8>::empty() =~= seq![v as u8]);
}

/// The one-character string of a decimal digit.
fn digit_str(d: u8) -> (s: &'static str)
    requires
        d < 10,
    ensures
        s.spec_bytes() == seq![(0x30 + d) as u8],
{
    if d == 0 {
        proof {
            reveal_strlit("0");
            assert("0"@ =~= seq!['0']);
            lemma_single_char_bytes('0');
        }
        "0"
    } else if d == 1 {
        proof {
            reveal_strlit("1");
            assert("1"@ =~= seq!['1']);
            lemma_single_char_bytes('1');
        }
        "1"
    } else if d == 2 {
        proof {
            reveal_strlit("2");
            assert("2"@ =~= seq!['2']);
            lemma_single_char_bytes('2');
        }
        "2"
    } else if d == 3 {
        proof {
            reveal_strlit("3");
            assert("3"@ =~= seq!['3']);
            lemma_single_char_bytes('3');
        }
        "3"
    } else if d == 4 {
        proof {
            reveal_strlit("4");
            assert("4"@ =~= seq!['4']);
            lemma_single_char_bytes('4');
        }
        "4"
    } else if d == 5 {
        proof {
            reveal_strlit("5");
            assert("5"@ =~= seq!['5']);
            lemma_single_char_bytes('5');
        }
        "5"
    } else if d == 6 {
        proof {
            reveal_strlit("6");
            assert("6"@ =~= seq!['6']);
            lemma_single_char_bytes('6');
        }
        "6"
    } else if d == 7 {
        proof {
            reveal_strlit("7");
            assert("7"@ =~= seq!['7']);
            lemma_single_char_bytes('7');
        }
        "7"
    } else if d == 8 {
        proof {
            reveal_strlit("8");
            assert("8"@ =~= seq!['8']);
            lemma_single_char_bytes('8');
        }
        "8"
    } else {
        proof {
            reveal_strlit("9");
            assert("9"@ =~= seq!['9']);
            lemma_single_char_bytes('9');
        }
        "9"
    }
}

/// Appends the decimal digits of `n` to `out`.
pub fn append_digits(out: &mut String, n: u64)
    ensures
        utf8_bytes(final(out)@) == utf8_bytes(old(out)@) + dec_digits_of(n as nat),
    decreases n,
{
    if n < 10 {
        let ghost before = out@;
        let d = digit_str(n as u8);
        out.append(d);
        proof {
            lemma_utf8_concat(before, d@);
            assert(utf8_bytes(d@) =~= dec_digits_of(n as nat));
        }
    } else {
        append_digits(out, n / 10);
        let ghost mid = out@;
        let d = digit_str((n % 10) as u8);
        out.append(d);
        proof {
            lemma_utf8_concat(mid, d@);
            assert(utf8_bytes(d@) =~= seq![(0x30 + (n as nat % 10)) as u8]);
            assert(utf8_bytes(old(out)@) + dec_digits_of(n as nat / 10) + utf8_bytes(d@)
                =~= utf8_bytes(old(out)@) + dec_digits_of(n as nat));
        }
    }
}

/// Appends exactly `p` decimal digits of `n` to `out`, zero-padded.
fn append_digits_fixed(out: &mut String, n: u64, p: u8)
    ensures
        utf8_bytes(final(out)@) == utf8_bytes(old(out)@) + dec_digits_fixed(n as nat, p as nat),
    decreases p,
{
    if p == 0 {
        proof {
            assert(utf8_bytes(out@) + dec_digits_fixed(n as nat, 0) =~= utf8_bytes(out@));
        }
    } else {
        append_digits_fixed(out, n / 10, p - 1);
        let ghost mid = out@;
        let d = digit_str((n % 10) as u8);
        out.append(d);
        proof {
            lemma_utf8_concat(mid, d@);
            assert(utf8_bytes(d@) =~= seq![(0x30 + (n as nat % 10)) as u8]);
            assert(utf8_bytes(old(out)@) + dec_digits_fixed(n as nat / 10, (p - 1) as nat)
                + utf8_bytes(d@) =~= utf8_bytes(old(out)@) + dec_digits_fixed(
                n as nat, p as nat));
        }
    }
}

/// Ten to the `p`, as a machine integer.
pub fn pow10_u64(p: u8) -> (r: u64)
    requires
        p <= 15,
    ensures
        r as int == pow10(p as nat),
{
    proof {
        lemma_pow10_values();
    }
    let mut r: u64 = 1;
    let mut i: u8 = 0;
    while i < p
        invariant
            i <= p <= 15,
            r as int == pow10(i as nat),
            pow10(15) == MAX_SCALED_WEIGHT as int,
        decreases p - i,
    {
        proof {
            lemma_pow10_mono((i + 1) as nat, 15);
            assert(pow10((i + 1) as nat) == 10 * pow10(i as nat));
        }
        r = r * 10;
        i = i + 1;
    }
    r
}

/// Renders a scaled weight back as decimal text with exactly `p` places
/// after the point; filter expressions are evaluated over this rendering.
pub fn format_scaled(v: i64, p: u8) -> (s: String)
    requires
        p <= 12,
        -MAX_SCALED_WEIGHT <= v <= MAX_SCALED_WEIGHT,
    ensures
        utf8_bytes(s@) == spec_format_scaled(v as int, p as nat),
{
    let mut out = String::new();
    proof {
        assert(utf8_bytes(out@) =~= Seq::<u8>::empty());
    }
    if v < 0 {
        let ghost before = out@;
        proof {
            reveal_strlit("-");
            assert("-"@ =~= seq!['-']);
            lemma_single_char_bytes('-');
        }
        out.append("-");
        proof {
            lemma_utf8_concat(before, "-"@);
            assert(utf8_bytes(out@) =~= seq![0x2du8]);
        }
    }
    let ghost signed = utf8_bytes(out@);
    let mag: u64 = if v < 0 {
        (-v) as u64
    } else {
        v as u64
    };
    if p == 0 {
        append_digits(&mut out, mag);
        proof {
            assert(utf8_bytes(out@) =~= spec_format_scaled(v as int, 0));
        }
    } else {
        let scale = pow10_u64(p);
        proof {
            lemma_pow10_pos(p as nat);
        }
        append_digits(&mut out, mag / scale);
        let ghost mid = out@;
        proof {
            reveal_strlit(".");
            assert("."@ =~= seq!['.']);
            lemma_single_char_bytes('.');
        }
        out.append(".");
        proof {
            lemma_utf8_concat(mid, "."@);
        }
        append_digits_fixed(&mut out, mag % scale, p);
        proof {
            assert(utf8_bytes(out@) =~= spec_format_scaled(v as int, p as nat));
        }
    }
    out
}

} // verus!

