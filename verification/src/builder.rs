//! Building the graph from tab-separated edge rows.
//!
//! The first row names the fields, or field names `column_1..column_N`
//! are synthesized from its width and it counts as data.  Columns one and
//! two of each row are the endpoint labels; the later columns are parsed
//! as decimal weights and rounded.  A row whose weight field is NaN is
//! skipped; an optional filter expression admits or drops an edge; the
//! stored weight is one (at scale) when edges are counted instead of
//! summed.  Structural faults are fatal and yield no graph.

use vstd::prelude::*;
use vstd::string::StringSliceAdditionalSpecFns;
use vstd::hash_map::StringHashMap;
use crate::labels::{utf8_bytes, lemma_utf8_injective, lemma_utf8_concat};
use crate::rows::{strings_bytes, row_fields, split_line};
use crate::weight::{
    WeightSpec, ParsedWeight, spec_parse_weight, weight_to_exec, spec_format_scaled, pow10,
    parse_weight, format_scaled, pow10_u64, lemma_pow10_values, lemma_pow10_mono, dec_digits_of,
};
use crate::graph::{
    Graph, GraphModel, Edge, find_label, lemma_find_label_props, lemma_find_label_push,
};
use crate::FatalError;
use crate::MAX_SCALED_WEIGHT;

verus! {

/// The synthesized name of one-based column `k`.
pub open spec fn synth_name(k: nat) -> Seq<u8> {
    utf8_bytes("column_"@) + dec_digits_of(k)
}

/// The synthesized header of an `n`-column row.
pub open spec fn synth_header(n: nat) -> Seq<Seq<u8>> {
    Seq::new(n, |i: int| synth_name((i + 1) as nat))
}

/// The header: the first row's fields, or names synthesized from its
/// width.
pub open spec fn header_of(first: Seq<Seq<u8>>, has_header: bool) -> Seq<Seq<u8>> {
    if has_header {
        first
    } else {
        synth_header(first.len())
    }
}

/// The weight column: the last column from the third onward whose header
/// name matches, since later columns of one name shadow earlier ones.
pub open spec fn weight_col(header: Seq<Seq<u8>>, name: Seq<u8>) -> Option<int>
    decreases header.len(),
{
    if header.len() <= 2 {
        None
    } else if header.last() == name {
        Some(header.len() - 1)
    } else {
        weight_col(header.drop_last(), name)
    }
}

/// Where the weight column is, and what its absence means.
pub proof fn lemma_weight_col_props(header: Seq<Seq<u8>>, name: Seq<u8>)
    ensures
        match weight_col(header, name) {
            None => forall|j: int| 2 <= j < header.len() ==> header[j] != name,
            Some(i) => 2 <= i < header.len() && header[i] == name && (forall|j: int|
                i < j < header.len() ==> header[j] != name),
        },
    decreases header.len(),
{
    if header.len() > 2 && header.last() != name {
        lemma_weight_col_props(header.drop_last(), name);
        assert(forall|j: int|
            0 <= j < header.len() - 1 ==> header.drop_last()[j] == #[trigger] header[j]);
    }
}

/// The weights of the fields from the third onward, or `None` when any of
/// them fails to parse.
pub open spec fn parse_from(fields: Seq<Seq<u8>>, i: int, p: nat) -> Option<Seq<WeightSpec>>
    decreases fields.len() - i,
{
    if i >= fields.len() {
        Some(Seq::empty())
    } else {
        match spec_parse_weight(fields[i], p) {
            None => None,
            Some(w) => match parse_from(fields, i + 1, p) {
                None => None,
                Some(rest) => Some(seq![w] + rest),
            },
        }
    }
}

/// A successful parse yields one weight per remaining field.
pub proof fn lemma_parse_from_len(fields: Seq<Seq<u8>>, i: int, p: nat)
    requires
        0 <= i <= fields.len(),
        parse_from(fields, i, p) is Some,
    ensures
        parse_from(fields, i, p).unwrap().len() == fields.len() - i,
        forall|k: int|
            i <= k < fields.len() ==> spec_parse_weight(#[trigger] fields[k], p) == Some(
                parse_from(fields, i, p).unwrap()[k - i],
            ),
    decreases fields.len() - i,
{
    if i < fields.len() {
        lemma_parse_from_len(fields, i + 1, p);
    }
}

/// The bytes of "NaN", the rendering of a missing number.
pub open spec fn nan_bytes() -> Seq<u8> {
    seq![0x4eu8, 0x61u8, 0x4eu8]
}

/// How one parsed weight is rendered for the filter expression.
pub open spec fn render_weight(w: WeightSpec, p: nat) -> Seq<u8> {
    match w {
        WeightSpec::Nan => nan_bytes(),
        WeightSpec::Num(v) => spec_format_scaled(v, p),
    }
}

/// The rendering of every parsed weight.
pub open spec fn render_all(ws: Seq<WeightSpec>, p: nat) -> Seq<Seq<u8>>
    decreases ws.len(),
{
    if ws.len() == 0 {
        Seq::empty()
    } else {
        render_all(ws.drop_last(), p).push(render_weight(ws.last(), p))
    }
}

pub proof fn lemma_render_all_props(ws: Seq<WeightSpec>, p: nat)
    ensures
        render_all(ws, p).len() == ws.len(),
        forall|k: int|
            0 <= k < ws.len() ==> #[trigger] render_all(ws, p)[k] == render_weight(ws[k], p),
    decreases ws.len(),
{
    if ws.len() > 0 {
        lemma_render_all_props(ws.drop_last(), p);
        assert(forall|k: int|
            0 <= k < ws.len() - 1 ==> ws.drop_last()[k] == #[trigger] ws[k]);
    }
}

/// What one data row means for the graph.
pub enum RowOutcome {
    /// The row is structurally invalid; the whole input is rejected.
    Fatal(FatalError),
    /// The row adds its nodes but no edge.
    Skip,
    /// The row adds its nodes and an edge of the given scaled weight.
    Admit(int),
}

/// Judges one data row: its field count must match the header, every
/// weight column must parse, a NaN weight field skips the row, and the
/// filter expression, if any, admits the edge iff it evaluates non-zero.
pub open spec fn spec_row(
    fields: Seq<Seq<u8>>,
    header: Seq<Seq<u8>>,
    widx: int,
    filter: Option<Seq<u8>>,
    count_edges: bool,
    p: nat,
) -> RowOutcome {
    if fields.len() != header.len() {
        RowOutcome::Fatal(FatalError::FieldCountMismatch)
    } else {
        match parse_from(fields, 2, p) {
            None => RowOutcome::Fatal(FatalError::UnparsableWeight),
            Some(ws) => {
                let wv = ws[widx - 2];
                if wv is Nan {
                    RowOutcome::Skip
                } else {
                    let admitted = match filter {
                        None => Some(true),
                        Some(e) => crate::filter::eval_filter_spec(
                            e,
                            header.skip(2),
                            render_all(ws, p),
                        ),
                    };
                    match admitted {
                        None => RowOutcome::Fatal(FatalError::BadFilterExpression),
                        Some(false) => RowOutcome::Skip,
                        Some(true) => RowOutcome::Admit(
                            if count_edges {
                                pow10(p)
                            } else {
                                wv->Num_0
                            },
                        ),
                    }
                }
            },
        }
    }
}

/// The node of label `l`, existing or newly appended.
pub open spec fn spec_add_label(m: GraphModel, l: Seq<u8>) -> (GraphModel, int) {
    match find_label(m.labels, l) {
        Some(i) => (m, i),
        None => (m.push_node(l), m.labels.len() as int),
    }
}

/// One data row applied to the graph: both endpoint nodes are added (once
/// per distinct label over the whole input), then the row's outcome drops
/// it, skips it, or appends its edge.
pub open spec fn spec_apply_row(
    m: GraphModel,
    fields: Seq<Seq<u8>>,
    header: Seq<Seq<u8>>,
    widx: int,
    filter: Option<Seq<u8>>,
    count_edges: bool,
    p: nat,
) -> Result<GraphModel, FatalError> {
    match spec_row(fields, header, widx, filter, count_edges, p) {
        RowOutcome::Fatal(e) => Err(e),
        outcome => {
            let (m1, ia) = spec_add_label(m, fields[0]);
            let (m2, ib) = spec_add_label(m1, fields[1]);
            match outcome {
                RowOutcome::Admit(w) => Ok(
                    m2.push_edge(Edge { a: ia as usize, b: ib as usize, w: w as i64 }),
                ),
                _ => Ok(m2),
            }
        },
    }
}

/// The data rows from `i` onward folded over the graph.
pub open spec fn spec_build_rows(
    m: GraphModel,
    lines: Seq<Seq<u8>>,
    i: int,
    header: Seq<Seq<u8>>,
    widx: int,
    filter: Option<Seq<u8>>,
    count_edges: bool,
    p: nat,
) -> Result<GraphModel, FatalError>
    decreases lines.len() - i,
{
    if i >= lines.len() {
        Ok(m)
    } else {
        match spec_apply_row(m, row_fields(lines[i]), header, widx, filter, count_edges, p) {
            Err(e) => Err(e),
            Ok(m2) => spec_build_rows(m2, lines, i + 1, header, widx, filter, count_edges, p),
        }
    }
}

/// The graph an input builds: empty input gives the empty graph; else the
/// header is resolved, the weight column must exist, and every data row
/// is applied in order.
pub open spec fn spec_build(
    lines: Seq<Seq<u8>>,
    has_header: bool,
    wname: Seq<u8>,
    filter: Option<Seq<u8>>,
    count_edges: bool,
    p: nat,
) -> Result<GraphModel, FatalError> {
    if lines.len() == 0 {
        Ok(GraphModel::empty())
    } else {
        let header = header_of(row_fields(lines[0]), has_header);
        match weight_col(header, wname) {
            None => Err(FatalError::MissingWeightField),
            Some(widx) => spec_build_rows(
                GraphModel::empty(),
                lines,
                if has_header {
                    1int
                } else {
                    0int
                },
                header,
                widx,
                filter,
                count_edges,
                p,
            ),
        }
    }
}

/// The label index mirrors the graph: every key points at the first (and
/// only) node with those label bytes, and every node is indexed.
pub open spec fn index_ok(idx: Map<Seq<char>, usize>, labels: Seq<Seq<u8>>) -> bool {
    &&& forall|c: Seq<char>|
        idx.dom().contains(c) ==> find_label(labels, utf8_bytes(c)) == Some(
            #[trigger] idx[c] as int,
        )
    &&& forall|i: int|
        0 <= i < labels.len() ==> exists|c: Seq<char>|
            idx.dom().contains(c) && utf8_bytes(c) == #[trigger] labels[i] && idx[c] == i
}

/// The byte form of an optional string.
pub open spec fn opt_bytes(s: Option<String>) -> Option<Seq<u8>> {
    match s {
        None => None,
        Some(f) => Some(utf8_bytes(f@)),
    }
}


/// A parse failure in any weight column fails the whole row.
pub proof fn lemma_parse_from_fail(fields: Seq<Seq<u8>>, i: int, k: int, p: nat)
    requires
        0 <= i <= k < fields.len(),
        spec_parse_weight(fields[k], p) is None,
    ensures
        parse_from(fields, i, p) is None,
    decreases k - i,
{
    if i < k {
        lemma_parse_from_fail(fields, i + 1, k, p);
    }
}

/// When every weight column parses, so does the row.
pub proof fn lemma_parse_from_some(fields: Seq<Seq<u8>>, i: int, p: nat)
    requires
        0 <= i <= fields.len(),
        forall|k: int| i <= k < fields.len() ==> spec_parse_weight(#[trigger] fields[k], p) is Some,
    ensures
        parse_from(fields, i, p) is Some,
    decreases fields.len() - i,
{
    if i < fields.len() {
        lemma_parse_from_some(fields, i + 1, p);
    }
}

/// A parsed numeric weight is within the admitted bound.
pub proof fn lemma_parse_weight_bounds(s: Seq<u8>, p: nat)
    ensures
        match spec_parse_weight(s, p) {
            Some(WeightSpec::Num(v)) => -MAX_SCALED_WEIGHT <= v <= MAX_SCALED_WEIGHT,
            _ => true,
        },
{
    let (neg, body) = crate::weight::strip_sign(s);
    if !crate::weight::is_nan_bytes(body) {
        match crate::weight::dec_body_parts(body) {
            None => {},
            Some(parts) => {
                let (ip, fp) = parts;
                if crate::weight::all_digits(ip) && crate::weight::all_digits(fp) && ip.len()
                    + fp.len() >= 1 {
                    crate::weight::lemma_digits_val_nonneg(ip);
                    crate::weight::lemma_pow10_pos(p);
                    crate::weight::lemma_round_frac_nonneg(fp, p);
                    assert(crate::weight::digits_val(ip) * pow10(p) >= 0) by (nonlinear_arith)
                        requires
                            crate::weight::digits_val(ip) >= 0,
                            pow10(p) >= 0,
                    ;
                }
            },
        }
    }
}

/// The bytes of the "NaN" rendering.
pub proof fn lemma_nan_literal()
    ensures
        utf8_bytes("NaN"@) == nan_bytes(),
{
    reveal_strlit("NaN");
    assert("NaN"@ =~= seq!['N'] + (seq!['a'] + seq!['N']));
    lemma_utf8_concat(seq!['N'], seq!['a'] + seq!['N']);
    lemma_utf8_concat(seq!['a'], seq!['N']);
    crate::weight::lemma_single_char_bytes('N');
    crate::weight::lemma_single_char_bytes('a');
    assert(utf8_bytes("NaN"@) =~= nan_bytes());
}

/// Clones the strings of `v` from position `from` onward.
fn clone_tail(v: &Vec<String>, from: usize) -> (r: Vec<String>)
    requires
        from <= v@.len(),
    ensures
        strings_bytes(r@) == strings_bytes(v@).skip(from as int),
{
    let mut r: Vec<String> = Vec::new();
    let mut i: usize = from;
    while i < v.len()
        invariant
            from <= i <= v@.len(),
            r@.len() == i - from,
            forall|k: int|
                0 <= k < r@.len() ==> utf8_bytes(#[trigger] r@[k]@) == utf8_bytes(
                    v@[from + k]@,
                ),
        decreases v@.len() - i,
    {
        r.push(v[i].clone());
        i = i + 1;
    }
    proof {
        assert(strings_bytes(r@) =~= strings_bytes(v@).skip(from as int));
    }
    r
}

/// The synthesized header names of an `n`-column row.
fn make_synth_header(n: usize) -> (r: Vec<String>)
    ensures
        strings_bytes(r@) == synth_header(n as nat),
{
    let mut r: Vec<String> = Vec::new();
    let mut k: usize = 0;
    while k < n
        invariant
            k <= n,
            r@.len() == k,
            forall|j: int| 0 <= j < k ==> utf8_bytes(#[trigger] r@[j]@) == synth_name((j + 1) as nat),
        decreases n - k,
    {
        let mut name: String = "column_".to_owned();
        crate::weight::append_digits(&mut name, (k + 1) as u64);
        proof {
            assert(utf8_bytes(name@) == synth_name((k + 1) as nat));
        }
        r.push(name);
        k = k + 1;
    }
    proof {
        assert(strings_bytes(r@) =~= synth_header(n as nat));
    }
    r
}

/// Finds the weight column: the last header name from the third column
/// onward equal to `name`.
fn resolve_weight_col(header: &Vec<String>, name: &str) -> (r: Option<usize>)
    ensures
        match r {
            None => weight_col(strings_bytes(header@), name.spec_bytes()) is None,
            Some(i) => 2 <= i < header@.len() && weight_col(strings_bytes(header@), name.spec_bytes())
                == Some(i as int),
        },
{
    let ghost hb = strings_bytes(header@);
    let ghost nb = name.spec_bytes();
    proof {
        lemma_weight_col_props(hb, nb);
    }
    let mut j = header.len();
    while j > 2
        invariant
            2 <= j <= header@.len() || (j <= 2 && header@.len() <= 2),
            j <= header@.len(),
            hb == strings_bytes(header@),
            nb == name.spec_bytes(),
            forall|k: int| j <= k < hb.len() ==> hb[k] != nb,
        decreases j,
    {
        j = j - 1;
        if crate::labels::str_eq(header[j].as_str(), name) {
            proof {
                assert(hb[j as int] == nb);
                lemma_weight_col_props(hb, nb);
                match weight_col(hb, nb) {
                    None => {
                        assert(false);
                    },
                    Some(i) => {
                        if i < j {
                            assert(hb[j as int] != nb);
                        }
                        if i > j {
                            assert(hb[i] != nb);
                        }
                    },
                }
            }
            return Some(j);
        }
        proof {
            assert(hb[j as int] != nb);
        }
    }
    proof {
        lemma_weight_col_props(hb, nb);
        if weight_col(hb, nb) is Some {
            let i = weight_col(hb, nb).unwrap();
            assert(hb[i] == nb);
            assert(hb[i] != nb);
        }
    }
    None
}

/// Whether exec and mathematical parse results agree pointwise.
pub open spec fn weights_match(ws: Seq<ParsedWeight>, sw: Seq<WeightSpec>) -> bool {
    &&& ws.len() == sw.len()
    &&& forall|k: int|
        0 <= k < ws.len() ==> Some(#[trigger] ws[k]) == weight_to_exec(Some(sw[k]))
}

/// Parses and renders the weight columns of one row.
fn parse_row_values(fields: &Vec<String>, precision: u8) -> (r: Option<
    (Vec<ParsedWeight>, Vec<String>),
>)
    requires
        precision <= 12,
        fields@.len() >= 2,
    ensures
        match r {
            None => parse_from(strings_bytes(fields@), 2, precision as nat) is None,
            Some(p) => {
                let sw = parse_from(strings_bytes(fields@), 2, precision as nat);
                &&& sw is Some
                &&& weights_match(p.0@, sw.unwrap())
                &&& strings_bytes(p.1@) == render_all(sw.unwrap(), precision as nat)
            },
        },
{
    let ghost fb = strings_bytes(fields@);
    let ghost p = precision as nat;
    let mut ws: Vec<ParsedWeight> = Vec::new();
    let mut rendered: Vec<String> = Vec::new();
    let mut j: usize = 2;
    while j < fields.len()
        invariant
            2 <= j <= fields@.len(),
            precision <= 12,
            fb == strings_bytes(fields@),
            p == precision as nat,
            ws@.len() == j - 2,
            rendered@.len() == j - 2,
            forall|k: int|
                2 <= k < j ==> spec_parse_weight(#[trigger] fb[k], p) is Some,
            forall|k: int|
                2 <= k < j ==> Some(#[trigger] ws@[k - 2]) == weight_to_exec(
                    spec_parse_weight(fb[k], p),
                ),
            forall|k: int|
                2 <= k < j ==> utf8_bytes(#[trigger] rendered@[k - 2]@) == render_weight(
                    spec_parse_weight(fb[k], p).unwrap(),
                    p,
                ),
        decreases fields@.len() - j,
    {
        proof {
            assert(fb[j as int] == utf8_bytes(fields@[j as int]@));
        }
        match parse_weight(fields[j].as_str(), precision) {
            None => {
                proof {
                    lemma_parse_from_fail(fb, 2, j as int, p);
                }
                return None;
            },
            Some(ParsedWeight::NotANumber) => {
                ws.push(ParsedWeight::NotANumber);
                let marker: String = "NaN".to_owned();
                proof {
                    lemma_nan_literal();
                }
                rendered.push(marker);
            },
            Some(ParsedWeight::Value(v)) => {
                proof {
                    lemma_parse_weight_bounds(fb[j as int], p);
                }
                ws.push(ParsedWeight::Value(v));
                let text = format_scaled(v, precision);
                rendered.push(text);
            },
        }
        j = j + 1;
    }
    proof {
        lemma_parse_from_some(fb, 2, p);
        let sw = parse_from(fb, 2, p).unwrap();
        lemma_parse_from_len(fb, 2, p);
        lemma_render_all_props(sw, p);
        assert forall|k: int| 0 <= k < ws@.len() implies Some(#[trigger] ws@[k])
            == weight_to_exec(Some(sw[k])) by {
            assert(spec_parse_weight(fb[k + 2], p) == Some(sw[k]));
            assert(Some(ws@[k]) == weight_to_exec(spec_parse_weight(fb[k + 2], p)));
        }
        assert(weights_match(ws@, sw));
        assert forall|k: int| 0 <= k < rendered@.len() implies strings_bytes(rendered@)[k]
            == render_all(sw, p)[k] by {
            assert(spec_parse_weight(fb[k + 2], p) == Some(sw[k]));
            assert(utf8_bytes(rendered@[k]@) == render_weight(
                spec_parse_weight(fb[k + 2], p).unwrap(),
                p,
            ));
            assert(render_all(sw, p)[k] == render_weight(sw[k], p));
        }
        assert(strings_bytes(rendered@) =~= render_all(sw, p));
    }
    Some((ws, rendered))
}

/// The node carrying this label, added to the graph and the index if it
/// is new.
fn add_label(g: &mut Graph, idx: &mut StringHashMap<usize>, s: &String) -> (ia: usize)
    requires
        old(g).inv(),
        index_ok(old(idx)@, old(g)@.labels),
        forall|t: int| 0 <= t < old(g)@.labels.len() ==> old(g)@.alive[t],
    ensures
        final(g).inv(),
        index_ok(final(idx)@, final(g)@.labels),
        forall|t: int| 0 <= t < final(g)@.labels.len() ==> final(g)@.alive[t],
        (final(g)@, ia as int) == spec_add_label(old(g)@, utf8_bytes(s@)),
        (ia as int) < final(g)@.labels.len(),
        final(g)@.labels.len() >= old(g)@.labels.len(),
{
    let ghost lb = utf8_bytes(s@);
    let ghost labels0 = g@.labels;
    proof {
        g.lemma_inv_wf();
    }
    match idx.get(s.as_str()) {
        Some(found) => {
            let ia = *found;
            proof {
                assert(idx@.dom().contains(s@));
                assert(find_label(labels0, lb) == Some(ia as int));
                lemma_find_label_props(labels0, lb);
            }
            ia
        },
        None => {
            proof {
                lemma_find_label_props(labels0, lb);
                if find_label(labels0, lb) is Some {
                    let i = find_label(labels0, lb).unwrap();
                    assert(labels0[i] == lb);
                    let c = choose|c: Seq<char>|
                        idx@.dom().contains(c) && utf8_bytes(c) == #[trigger] labels0[i]
                            && idx@[c] == i;
                    lemma_utf8_injective(c, s@);
                    assert(idx@.dom().contains(s@));
                    assert(false);
                }
            }
            let ia = g.push_node(s.clone());
            idx.insert(s.clone(), ia);
            proof {
                g.lemma_inv_wf();
                assert(old(g)@.alive.len() == labels0.len());
                assert forall|t: int| 0 <= t < g@.labels.len() implies g@.alive[t] by {
                    if t < labels0.len() {
                        assert(g@.alive[t] == old(g)@.alive[t]);
                    }
                }
                let labels1 = g@.labels;
                assert(labels1 == labels0.push(lb));
                assert forall|c: Seq<char>| final(idx)@.dom().contains(c) implies find_label(
                    labels1,
                    utf8_bytes(c),
                ) == Some(#[trigger] final(idx)@[c] as int) by {
                    lemma_find_label_push(labels0, utf8_bytes(c), lb);
                    if c != s@ {
                        assert(old(idx)@.dom().contains(c));
                    }
                }
                assert forall|i: int| 0 <= i < labels1.len() implies exists|c: Seq<char>|
                    final(idx)@.dom().contains(c) && utf8_bytes(c) == #[trigger] labels1[i]
                        && final(idx)@[c] == i by {
                    if i < labels0.len() {
                        let c = choose|c: Seq<char>|
                            old(idx)@.dom().contains(c) && utf8_bytes(c) == #[trigger] labels0[i]
                                && old(idx)@[c] == i;
                        if c == s@ {
                            assert(find_label(labels0, lb) == Some(old(idx)@[c] as int));
                            assert(false);
                        }
                        assert(final(idx)@.dom().contains(c) && utf8_bytes(c) == labels1[i]
                            && final(idx)@[c] == i);
                    } else {
                        assert(final(idx)@.dom().contains(s@) && utf8_bytes(s@) == labels1[i]
                            && final(idx)@[s@] == i);
                    }
                }
            }
            ia
        },
    }
}


/// Builds the graph from tab-separated rows.
///
/// The first row supplies the field names when `has_header` is set, and
/// otherwise is data under synthesized names `column_1..column_N`.  The
/// returned index maps each node label to its node.
#[verifier::rlimit(60)]
pub fn graph_read(
    lines: &Vec<String>,
    has_header: bool,
    weight_field: &String,
    weight_filter: &Option<String>,
    weight_n_edges: bool,
    weight_precision: u8,
) -> (r: Result<(Graph, StringHashMap<usize>), FatalError>)
    requires
        weight_precision <= 12,
    ensures
        ({
            let sr = spec_build(
                strings_bytes(lines@),
                has_header,
                utf8_bytes(weight_field@),
                opt_bytes(*weight_filter),
                weight_n_edges,
                weight_precision as nat,
            );
            match r {
                Ok(p) => sr == Ok::<GraphModel, FatalError>(p.0@) && p.0.inv() && index_ok(
                    p.1@,
                    p.0@.labels,
                ),
                Err(e) => sr == Err::<GraphModel, FatalError>(e),
            }
        }),
{
    let ghost lbs = strings_bytes(lines@);
    let ghost wnb = utf8_bytes(weight_field@);
    let ghost filtb = opt_bytes(*weight_filter);
    let ghost p = weight_precision as nat;

    if lines.len() == 0 {
        let g = Graph::new();
        let idx: StringHashMap<usize> = StringHashMap::new();
        proof {
            assert(index_ok(idx@, g@.labels));
        }
        return Ok((g, idx));
    }

    proof {
        assert(lbs[0] == utf8_bytes(lines@[0]@));
    }
    let first_fields = split_line(lines[0].as_str());
    let ghost first_b = strings_bytes(first_fields@);
    let header: Vec<String> = if has_header {
        first_fields
    } else {
        let n = first_fields.len();
        proof {
            assert(first_b.len() == first_fields@.len());
        }
        make_synth_header(n)
    };
    let ghost hb = strings_bytes(header@);
    proof {
        assert(first_b == row_fields(lbs[0]));
        assert(hb == header_of(row_fields(lbs[0]), has_header));
    }

    let widx: usize = match resolve_weight_col(&header, weight_field.as_str()) {
        None => {
            proof {
                assert(weight_col(hb, wnb) is None);
            }
            return Err(FatalError::MissingWeightField);
        },
        Some(w) => w,
    };
    let names = clone_tail(&header, 2);

    let mut g = Graph::new();
    let mut idx: StringHashMap<usize> = StringHashMap::new();
    let start: usize = if has_header {
        1
    } else {
        0
    };
    proof {
        assert(spec_build(lbs, has_header, wnb, filtb, weight_n_edges, p) == spec_build_rows(
            g@,
            lbs,
            start as int,
            hb,
            widx as int,
            filtb,
            weight_n_edges,
            p,
        ));
        assert(index_ok(idx@, g@.labels));
    }

    let mut i: usize = start;
    while i < lines.len()
        invariant
            i <= lines@.len(),
            weight_precision <= 12,
            p == weight_precision as nat,
            lbs == strings_bytes(lines@),
            wnb == utf8_bytes(weight_field@),
            hb == strings_bytes(header@),
            header@.len() == hb.len(),
            2 <= (widx as int) < hb.len(),
            strings_bytes(names@) == hb.skip(2),
            filtb == opt_bytes(*weight_filter),
            g.inv(),
            index_ok(idx@, g@.labels),
            forall|t: int| 0 <= t < g@.labels.len() ==> g@.alive[t],
            spec_build(lbs, has_header, wnb, filtb, weight_n_edges, p) == spec_build_rows(
                g@,
                lbs,
                i as int,
                hb,
                widx as int,
                filtb,
                weight_n_edges,
                p,
            ),
        decreases lines@.len() - i,
    {
        let ghost g0 = g@;
        proof {
            assert(lbs[i as int] == utf8_bytes(lines@[i as int]@));
        }
        let fields = split_line(lines[i].as_str());
        let ghost fbs = strings_bytes(fields@);
        proof {
            assert(fbs == row_fields(lbs[i as int]));
        }
        if fields.len() != header.len() {
            proof {
                assert(spec_row(fbs, hb, widx as int, filtb, weight_n_edges, p)
                    == RowOutcome::Fatal(FatalError::FieldCountMismatch));
                assert(spec_apply_row(g0, fbs, hb, widx as int, filtb, weight_n_edges, p)
                    == Err::<GraphModel, FatalError>(FatalError::FieldCountMismatch));
                assert(spec_build_rows(g0, lbs, i as int, hb, widx as int, filtb, weight_n_edges, p)
                    == Err::<GraphModel, FatalError>(FatalError::FieldCountMismatch));
            }
            return Err(FatalError::FieldCountMismatch);
        }
        let pr = match parse_row_values(&fields, weight_precision) {
            None => {
                proof {
                    assert(spec_row(fbs, hb, widx as int, filtb, weight_n_edges, p)
                        == RowOutcome::Fatal(FatalError::UnparsableWeight));
                    assert(spec_apply_row(g0, fbs, hb, widx as int, filtb, weight_n_edges, p)
                        == Err::<GraphModel, FatalError>(FatalError::UnparsableWeight));
                    assert(spec_build_rows(g0, lbs, i as int, hb, widx as int, filtb,
                        weight_n_edges, p) == Err::<GraphModel, FatalError>(
                        FatalError::UnparsableWeight));
                }
                return Err(FatalError::UnparsableWeight);
            },
            Some(pr) => pr,
        };
        let (parsed, rendered) = pr;
        let ghost sw = parse_from(fbs, 2, p).unwrap();
        proof {
            lemma_parse_from_len(fbs, 2, p);
        }
        let wv = parsed[widx - 2];
        proof {
            assert(Some(wv) == weight_to_exec(Some(sw[widx - 2])));
        }
        let is_nan = match wv {
            ParsedWeight::NotANumber => true,
            ParsedWeight::Value(_) => false,
        };
        let mut take_edge = false;
        if is_nan {
            proof {
                assert(spec_row(fbs, hb, widx as int, filtb, weight_n_edges, p)
                    == RowOutcome::Skip);
            }
        } else {
            match weight_filter {
                None => {
                    take_edge = true;
                },
                Some(e) => {
                    match crate::filter::eval_filter(e.as_str(), &names, &rendered) {
                        None => {
                            proof {
                                assert(spec_row(fbs, hb, widx as int, filtb, weight_n_edges, p)
                                    == RowOutcome::Fatal(FatalError::BadFilterExpression));
                                assert(spec_apply_row(g0, fbs, hb, widx as int, filtb,
                                    weight_n_edges, p) == Err::<GraphModel, FatalError>(
                                    FatalError::BadFilterExpression));
                                assert(spec_build_rows(g0, lbs, i as int, hb, widx as int, filtb,
                                    weight_n_edges, p) == Err::<GraphModel, FatalError>(
                                    FatalError::BadFilterExpression));
                            }
                            return Err(FatalError::BadFilterExpression);
                        },
                        Some(true) => {
                            take_edge = true;
                        },
                        Some(false) => {
                            proof {
                                assert(spec_row(fbs, hb, widx as int, filtb, weight_n_edges, p)
                                    == RowOutcome::Skip);
                            }
                        },
                    }
                },
            }
        }
        proof {
            assert(fbs[0] == utf8_bytes(fields@[0]@));
            assert(fbs[1] == utf8_bytes(fields@[1]@));
        }
        let ia = add_label(&mut g, &mut idx, &fields[0]);
        let ghost m1 = g@;
        let ib = add_label(&mut g, &mut idx, &fields[1]);
        let ghost m2 = g@;
        if take_edge {
            let w: i64 = if weight_n_edges {
                let scale = pow10_u64(weight_precision);
                proof {
                    lemma_pow10_values();
                    lemma_pow10_mono(p, 15);
                }
                scale as i64
            } else {
                match wv {
                    ParsedWeight::Value(v) => v,
                    ParsedWeight::NotANumber => 0,
                }
            };
            proof {
                lemma_parse_weight_bounds(fbs[widx as int], p);
                assert(spec_parse_weight(fbs[widx as int], p) == Some(sw[widx - 2]));
                assert(spec_row(fbs, hb, widx as int, filtb, weight_n_edges, p)
                    == RowOutcome::Admit(w as int));
                assert((ia as int) < m2.labels.len() && m2.alive[ia as int]);
            }
            g.push_edge(ia, ib, w);
        }
        proof {
            assert(spec_apply_row(g0, fbs, hb, widx as int, filtb, weight_n_edges, p)
                == Ok::<GraphModel, FatalError>(g@));
        }
        i = i + 1;
    }
    proof {
        assert(spec_build_rows(
            g@,
            lbs,
            lines@.len() as int,
            hb,
            widx as int,
            filtb,
            weight_n_edges,
            p,
        ) == Ok::<GraphModel, FatalError>(g@));
    }
    Ok((g, idx))
}


/// The graph restricted to the nodes whose labels the subset lists:
/// every alive node outside it is removed, in index order, with its
/// incident edges.
pub open spec fn spec_subset(m: GraphModel, keep: Seq<Seq<u8>>, i: int) -> GraphModel
    decreases m.labels.len() - i,
{
    if i < 0 || i >= m.labels.len() {
        m
    } else {
        let m2 = if m.alive[i] && !keep.contains(m.labels[i]) {
            m.remove_node(i)
        } else {
            m
        };
        spec_subset(m2, keep, i + 1)
    }
}

/// Removing a node leaves the labels and the later liveness flags as they
/// were.
pub proof fn lemma_remove_keeps_frame(m: GraphModel, v: int, t: int)
    requires
        0 <= v < m.alive.len(),
        0 <= t < m.alive.len(),
        t != v,
    ensures
        m.remove_node(v).alive[t] == m.alive[t],
        m.remove_node(v).labels == m.labels,
{
}

/// Whether any string of `v` has the bytes of `s`.
fn contains_label(v: &Vec<String>, s: &str) -> (r: bool)
    ensures
        r == strings_bytes(v@).contains(s.spec_bytes()),
{
    let mut i: usize = 0;
    while i < v.len()
        invariant
            i <= v@.len(),
            forall|k: int| 0 <= k < i ==> strings_bytes(v@)[k] != s.spec_bytes(),
        decreases v@.len() - i,
    {
        proof {
            assert(strings_bytes(v@)[i as int] == utf8_bytes(v@[i as int]@));
        }
        if crate::labels::str_eq(v[i].as_str(), s) {
            proof {
                assert(strings_bytes(v@)[i as int] == s.spec_bytes());
            }
            return true;
        }
        i = i + 1;
    }
    proof {
        if strings_bytes(v@).contains(s.spec_bytes()) {
            let k = choose|k: int|
                0 <= k < strings_bytes(v@).len() && strings_bytes(v@)[k] == s.spec_bytes();
            assert(strings_bytes(v@)[k] != s.spec_bytes());
        }
    }
    false
}

/// Restricts the graph to the nodes whose labels the subset lists, and
/// returns how many labels the subset names.
pub fn graph_subset(graph: &mut Graph, subset: &Vec<String>) -> (r: usize)
    requires
        old(graph).inv(),
    ensures
        final(graph).inv(),
        final(graph)@ == spec_subset(old(graph)@, strings_bytes(subset@), 0),
        r == subset@.len(),
{
    let ghost keep = strings_bytes(subset@);
    let n = graph.index_bound();
    let mut v: usize = 0;
    while v < n
        invariant
            v <= n,
            graph.inv(),
            n == graph@.labels.len(),
            keep == strings_bytes(subset@),
            spec_subset(old(graph)@, keep, 0) == spec_subset(graph@, keep, v as int),
        decreases n - v,
    {
        proof {
            graph.lemma_inv_wf();
        }
        if graph.is_alive(v) {
            let lab = graph.label_of(v);
            let lab_s = lab.as_str();
            proof {
                assert(lab_s.spec_bytes() == graph@.labels[v as int]);
            }
            if !contains_label(subset, lab_s) {
                graph.remove_node(v);
            }
        }
        v = v + 1;
    }
    subset.len()
}

} // verus!
