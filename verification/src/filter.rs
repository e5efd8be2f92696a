//! Edge admission by filter expression.
//!
//! An optional filter expression is evaluated per edge over the row's
//! named, rounded weight values; the edge is admitted exactly when the
//! result is non-zero.  The evaluation itself is done by an outside
//! expression engine; what the library relies on is that it is a pure
//! function of the expression text and the name-to-value assignment.

use vstd::prelude::*;
use vstd::string::StringSliceAdditionalSpecFns;

verus! {

/// The outcome of evaluating a filter expression over named field values
/// rendered as decimal text: `None` when the expression cannot be
/// evaluated (malformed, or an unknown name), otherwise whether the
/// numeric result is non-zero.
pub uninterp spec fn eval_filter_spec(
    expr: Seq<u8>,
    names: Seq<Seq<u8>>,
    values: Seq<Seq<u8>>,
) -> Option<bool>;

/// Relies on fasteval::ez_eval: parsing and evaluating an expression over
/// a map from names to numeric values is a pure function of the expression
/// text and the map, returning `Err` on a malformed expression or an
/// unknown name; the edge-admission rule is a non-zero result.  The result
/// is rendered as text to test it against zero, positive or negative.
#[verifier::external_body]
pub(crate) fn eval_filter(expr: &str, names: &Vec<String>, values: &Vec<String>) -> (r: Option<
    bool,
>)
    ensures
        r == eval_filter_spec(
            expr.spec_bytes(),
            crate::rows::strings_bytes(names@),
            crate::rows::strings_bytes(values@),
        ),
{
    let mut ns = fasteval::StringToF64Namespace::new();
    for (name, value) in names.iter().zip(values.iter()) {
        ns.insert(name.clone(), value.parse().unwrap_or("NaN".parse().unwrap()));
    }
    match fasteval::ez_eval(expr, &mut ns) {
        Ok(x) => {
            let rendered = x.to_string();
            Some(rendered != "0" && rendered != "-0")
        },
        Err(_) => None,
    }
}

} // verus!
