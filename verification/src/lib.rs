//! Greedy pruning of weighted undirected multigraphs.
//!
//! The crate builds a graph from tab-separated edge records, where each
//! record names two node labels and one or more numeric weight fields,
//! and then repeatedly removes the node carrying the greatest total
//! incident weight until no edges remain.  Weights are decimal numbers
//! rounded to a configured precision; they are represented exactly as
//! scaled integers (the value times ten to the precision).

pub mod builder;
pub mod bytes;
pub mod components;
pub mod filter;
pub mod graph;
pub mod labels;
pub mod prune;
pub mod rows;
pub mod weight;

use vstd::prelude::*;

verus! {

/// Largest admitted magnitude of a scaled weight.  Keeping every edge
/// weight within this bound lets node weight sums be computed in `i128`
/// without overflow for any number of edges.
pub const MAX_SCALED_WEIGHT: i64 = 1_000_000_000_000_000;

/// A structural fault in the input: no partial graph is acceptable and
/// processing stops.
#[derive(Clone, Copy, Debug, PartialEq, Eq, Structural)]
pub enum FatalError {
    /// A data row's field count differs from the header's.
    FieldCountMismatch,
    /// The configured weight field is not a weight column of the header.
    MissingWeightField,
    /// A weight field is neither a decimal number within range nor NaN.
    UnparsableWeight,
    /// The filter expression cannot be evaluated.
    BadFilterExpression,
    /// Pruning was asked of a graph with no nodes.
    EmptyGraph,
}

/// The configuration a run consumes; flag parsing stays outside the
/// library and hands over plain values.
pub struct Args {
    /// Worker count requested; selection is deterministic regardless.
    pub n_threads: usize,
    /// Input path, or standard input when absent.
    pub input: Option<String>,
    /// Whether the first row names the fields.
    pub header: bool,
    /// Path for the surviving node labels.
    pub out: Option<String>,
    /// Path for the excluded node labels.
    pub out_excl: Option<String>,
    /// Path for a dump of the starting graph.
    pub out_graph: Option<String>,
    /// Name of the field whose value weighs an edge.
    pub weight_field: String,
    /// Optional admission expression over the row's fields.
    pub weight_filter: Option<String>,
    /// Weigh nodes by edge count instead of summed weights.
    pub weight_n_edges: bool,
    /// Decimal places kept when rounding weights.
    pub weight_precision: u8,
    /// Keep the heaviest node and remove its neighbors instead.
    pub keep_heavy: bool,
    /// Path of a node subset to restrict the graph to.
    pub subset: Option<String>,
    /// Suppress warnings.
    pub quiet: bool,
    /// Verbosity step count.
    pub verbose: u8,
    /// Elimination mode: per-component when 1, else global.
    pub mode: usize,
}

} // verus!
