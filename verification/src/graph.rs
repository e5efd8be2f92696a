//! The live graph: nodes with string labels, undirected weighted edges.
//!
//! The graph is a multigraph: several edges may join the same pair of
//! nodes and all of them coexist.  Node labels are unique; a node, once
//! removed, is never re-created.  In contracts a graph is its model: the
//! label bytes of every node ever added, which of them are alive, and the
//! live edges.

use vstd::prelude::*;
use vstd::string::StringSliceAdditionalSpecFns;
use crate::labels::utf8_bytes;
use crate::MAX_SCALED_WEIGHT;

verus! {

/// One undirected edge: two endpoint node indices and a scaled weight.
#[derive(Clone, Copy, Debug, PartialEq, Eq, Structural)]
pub struct Edge {
    pub a: usize,
    pub b: usize,
    pub w: i64,
}

/// The mathematical state of a graph.
pub struct GraphModel {
    /// The label bytes of every node ever added, by node index.
    pub labels: Seq<Seq<u8>>,
    /// Which node indices are still alive.
    pub alive: Seq<bool>,
    /// The live edges; both endpoints of each are alive.
    pub edges: Seq<Edge>,
}

/// How many entries of `s` are set.
pub open spec fn count_alive(s: Seq<bool>) -> nat
    decreases s.len(),
{
    if s.len() == 0 {
        0
    } else {
        count_alive(s.drop_last()) + if s.last() {
            1nat
        } else {
            0nat
        }
    }
}

/// What edge `e` contributes to the summed incident weight of node `v`:
/// its weight once per endpoint equal to `v`, so a self-loop counts twice.
pub open spec fn edge_contrib(e: Edge, v: int) -> int {
    (if e.a == v {
        e.w as int
    } else {
        0
    }) + (if e.b == v {
        e.w as int
    } else {
        0
    })
}

/// The summed weight of all edges incident to node `v`.
pub open spec fn weight_sum(edges: Seq<Edge>, v: int) -> int
    decreases edges.len(),
{
    if edges.len() == 0 {
        0
    } else {
        weight_sum(edges.drop_last(), v) + edge_contrib(edges.last(), v)
    }
}

/// The first node index carrying label `l`, if any.
pub open spec fn find_label(labels: Seq<Seq<u8>>, l: Seq<u8>) -> Option<int>
    decreases labels.len(),
{
    if labels.len() == 0 {
        None
    } else if labels[0] == l {
        Some(0int)
    } else {
        match find_label(labels.drop_first(), l) {
            Some(i) => Some(i + 1),
            None => None,
        }
    }
}

impl GraphModel {
    /// Both endpoints of `e` are alive nodes and its weight is in range.
    pub open spec fn edge_ok(self, e: Edge) -> bool {
        &&& (e.a as int) < self.labels.len()
        &&& (e.b as int) < self.labels.len()
        &&& self.alive[e.a as int]
        &&& self.alive[e.b as int]
        &&& -MAX_SCALED_WEIGHT <= e.w <= MAX_SCALED_WEIGHT
    }

    /// Well-formedness: liveness flags cover the nodes, every edge joins
    /// alive nodes with an in-range weight, and labels never repeat.
    pub open spec fn wf(self) -> bool {
        &&& self.alive.len() == self.labels.len()
        &&& forall|k: int| 0 <= k < self.edges.len() ==> self.edge_ok(#[trigger] self.edges[k])
        &&& forall|i: int, j: int|
            0 <= i < j < self.labels.len() ==> self.labels[i] != self.labels[j]
    }

    /// The number of alive nodes.
    pub open spec fn alive_count(self) -> nat {
        count_alive(self.alive)
    }

    /// The summed weight of the edges incident to node `v`.
    pub open spec fn node_weight(self, v: int) -> int {
        weight_sum(self.edges, v)
    }

    /// The labels of the alive nodes, as a set.
    pub open spec fn alive_labels(self) -> Set<Seq<u8>> {
        Set::new(
            |l: Seq<u8>|
                exists|i: int|
                    0 <= i < self.labels.len() && self.alive[i] && self.labels[i] == l,
        )
    }

    /// Nodes `u` and `v` share an edge.
    pub open spec fn adjacent(self, v: int, u: int) -> bool {
        exists|k: int|
            0 <= k < self.edges.len() && ((#[trigger] self.edges[k]).a == v && self.edges[k].b
                == u || self.edges[k].a == u && self.edges[k].b == v)
    }

    /// The graph after node `v` is removed: `v` goes dead and every edge
    /// incident to it disappears.
    pub open spec fn remove_node(self, v: int) -> GraphModel {
        GraphModel {
            labels: self.labels,
            alive: self.alive.update(v, false),
            edges: edges_without(self.edges, v),
        }
    }

    /// The graph after a node with label `l` is appended alive.
    pub open spec fn push_node(self, l: Seq<u8>) -> GraphModel {
        GraphModel { labels: self.labels.push(l), alive: self.alive.push(true), edges: self.edges }
    }

    /// The graph after an edge is appended.
    pub open spec fn push_edge(self, e: Edge) -> GraphModel {
        GraphModel { labels: self.labels, alive: self.alive, edges: self.edges.push(e) }
    }

    /// The empty graph.
    pub open spec fn empty() -> GraphModel {
        GraphModel { labels: Seq::empty(), alive: Seq::empty(), edges: Seq::empty() }
    }
}

/// The live graph.
pub struct Graph {
    labels: Vec<String>,
    alive: Vec<bool>,
    edges: Vec<Edge>,
    n_alive: usize,
}

impl View for Graph {
    type V = GraphModel;

    closed spec fn view(&self) -> GraphModel {
        GraphModel {
            labels: self.labels@.map_values(|s: String| utf8_bytes(s@)),
            alive: self.alive@,
            edges: self.edges@,
        }
    }
}

impl Graph {
    /// The representation matches its model and the model is well-formed.
    pub closed spec fn inv(&self) -> bool {
        &&& self@.wf()
        &&& self.alive@.len() == self.labels@.len()
        &&& self.n_alive == self@.alive_count()
    }

    /// A graph that satisfies its invariant has a well-formed model.
    pub proof fn lemma_inv_wf(&self)
        requires
            self.inv(),
        ensures
            self@.wf(),
    {
    }

    /// Creates an empty graph.
    pub fn new() -> (g: Graph)
        ensures
            g.inv(),
            g@ == GraphModel::empty(),
    {
        let g = Graph { labels: Vec::new(), alive: Vec::new(), edges: Vec::new(), n_alive: 0 };
        proof {
            assert(g@.labels =~= Seq::<Seq<u8>>::empty());
            assert(g@.alive =~= Seq::<bool>::empty());
            assert(g@.edges =~= Seq::<Edge>::empty());
            assert(g@ =~= GraphModel::empty());
        }
        g
    }

    /// The number of alive nodes.
    pub fn node_count(&self) -> (r: usize)
        requires
            self.inv(),
        ensures
            r == self@.alive_count(),
    {
        self.n_alive
    }

    /// The number of live edges.
    pub fn edge_count(&self) -> (r: usize)
        ensures
            r == self@.edges.len(),
    {
        self.edges.len()
    }

    /// The number of nodes ever added, alive or not.
    pub fn index_bound(&self) -> (r: usize)
        ensures
            r == self@.labels.len(),
    {
        self.labels.len()
    }

    /// The live edges, for read-only traversal.
    pub fn edges_ref(&self) -> (r: &Vec<Edge>)
        ensures
            r@ == self@.edges,
    {
        &self.edges
    }

    /// Whether node `v` is alive.
    pub fn is_alive(&self, v: usize) -> (r: bool)
        requires
            self.inv(),
            (v as int) < self@.labels.len(),
        ensures
            r == self@.alive[v as int],
    {
        self.alive[v]
    }

    /// A copy of node `v`'s label.
    pub fn label_of(&self, v: usize) -> (s: String)
        requires
            self.inv(),
            (v as int) < self@.labels.len(),
        ensures
            utf8_bytes(s@) == self@.labels[v as int],
    {
        let s = self.labels[v].clone();
        proof {
            assert(self@.labels[v as int] == utf8_bytes(self.labels@[v as int]@));
        }
        s
    }
}


/// The edges of `edges` that do not touch node `v`, in order.
pub open spec fn edges_without(edges: Seq<Edge>, v: int) -> Seq<Edge>
    decreases edges.len(),
{
    if edges.len() == 0 {
        edges
    } else {
        let rest = edges_without(edges.drop_last(), v);
        if edges.last().a != v && edges.last().b != v {
            rest.push(edges.last())
        } else {
            rest
        }
    }
}

/// Every kept edge avoids `v` and comes from the original sequence, and
/// no edges are added.
pub proof fn lemma_edges_without_props(edges: Seq<Edge>, v: int)
    ensures
        edges_without(edges, v).len() <= edges.len(),
        forall|k: int|
            0 <= k < edges_without(edges, v).len() ==> {
                let e = #[trigger] edges_without(edges, v)[k];
                &&& e.a != v
                &&& e.b != v
                &&& exists|j: int| 0 <= j < edges.len() && edges[j] == e
            },
    decreases edges.len(),
{
    if edges.len() > 0 {
        lemma_edges_without_props(edges.drop_last(), v);
        assert(forall|j: int|
            0 <= j < edges.len() - 1 ==> edges.drop_last()[j] == #[trigger] edges[j]);
        assert forall|k: int| 0 <= k < edges_without(edges, v).len() implies {
            let e = #[trigger] edges_without(edges, v)[k];
            &&& e.a != v
            &&& e.b != v
            &&& exists|j: int| 0 <= j < edges.len() && edges[j] == e
        } by {
            let e = edges_without(edges, v)[k];
            if k < edges_without(edges.drop_last(), v).len() {
                assert(e == edges_without(edges.drop_last(), v)[k]);
                let j = choose|j: int|
                    0 <= j < edges.drop_last().len() && edges.drop_last()[j] == e;
                assert(edges[j] == e);
            } else {
                assert(e == edges.last());
                assert(edges[edges.len() - 1] == e);
            }
        }
    }
}

pub proof fn lemma_count_alive_le(s: Seq<bool>)
    ensures
        count_alive(s) <= s.len(),
    decreases s.len(),
{
    if s.len() > 0 {
        lemma_count_alive_le(s.drop_last());
    }
}

/// Switching one set flag off lowers the count by one.
pub proof fn lemma_count_alive_update_false(s: Seq<bool>, v: int)
    requires
        0 <= v < s.len(),
        s[v],
    ensures
        count_alive(s.update(v, false)) == count_alive(s) - 1,
    decreases s.len(),
{
    let t = s.update(v, false);
    if v == s.len() - 1 {
        assert(t.drop_last() =~= s.drop_last());
        assert(!t.last());
    } else {
        assert(t.drop_last() =~= s.drop_last().update(v, false));
        lemma_count_alive_update_false(s.drop_last(), v);
        assert(t.last() == s.last());
    }
}

pub proof fn lemma_count_alive_push(s: Seq<bool>, b: bool)
    ensures
        count_alive(s.push(b)) == count_alive(s) + if b {
            1int
        } else {
            0int
        },
{
    assert(s.push(b).drop_last() =~= s);
    assert(s.push(b).last() == b);
}

/// Where `find_label` points, and what its failure means.
pub proof fn lemma_find_label_props(labels: Seq<Seq<u8>>, l: Seq<u8>)
    ensures
        match find_label(labels, l) {
            None => forall|i: int| 0 <= i < labels.len() ==> labels[i] != l,
            Some(i) => 0 <= i < labels.len() && labels[i] == l,
        },
    decreases labels.len(),
{
    if labels.len() > 0 && labels[0] != l {
        lemma_find_label_props(labels.drop_first(), l);
        match find_label(labels.drop_first(), l) {
            None => {
                assert forall|i: int| 0 <= i < labels.len() implies labels[i] != l by {
                    if i >= 1 {
                        assert(labels[i] == labels.drop_first()[i - 1]);
                    }
                }
            },
            Some(i) => {
                assert(labels[i + 1] == labels.drop_first()[i]);
            },
        }
    }
}

/// Appending a label leaves earlier lookups unchanged and makes the new
/// label found at the end.
pub proof fn lemma_find_label_push(labels: Seq<Seq<u8>>, l: Seq<u8>, x: Seq<u8>)
    ensures
        find_label(labels.push(x), l) == (match find_label(labels, l) {
            Some(i) => Some(i),
            None => if x == l {
                Some(labels.len() as int)
            } else {
                None
            },
        }),
    decreases labels.len(),
{
    if labels.len() == 0 {
        assert(labels.push(x)[0] == x);
        assert(labels.push(x).drop_first() =~= Seq::<Seq<u8>>::empty());
    } else {
        assert(labels.push(x)[0] == labels[0]);
        assert(labels.push(x).drop_first() =~= labels.drop_first().push(x));
        lemma_find_label_push(labels.drop_first(), l, x);
    }
}

impl Graph {
    /// Appends a node with a label not yet present; its index is the old
    /// node bound.
    pub fn push_node(&mut self, s: String) -> (idx: usize)
        requires
            old(self).inv(),
            find_label(old(self)@.labels, utf8_bytes(s@)) is None,
        ensures
            final(self).inv(),
            final(self)@ == old(self)@.push_node(utf8_bytes(s@)),
            idx == old(self)@.labels.len(),
    {
        let idx = self.labels.len();
        proof {
            lemma_find_label_props(self@.labels, utf8_bytes(s@));
            lemma_count_alive_push(self.alive@, true);
            lemma_count_alive_le(self.alive@);
        }
        self.labels.push(s);
        self.alive.push(true);
        let bound = self.labels.len();
        proof {
            assert(self.n_alive < bound);
        }
        self.n_alive = self.n_alive + 1;
        proof {
            assert(self@.labels =~= old(self)@.labels.push(utf8_bytes(s@)));
            assert(self@ =~= old(self)@.push_node(utf8_bytes(s@)));
            let m = self@;
            assert forall|k: int| 0 <= k < m.edges.len() implies m.edge_ok(#[trigger] m.edges[k])
            by {
                assert(old(self)@.edge_ok(old(self)@.edges[k]));
                assert(m.alive[m.edges[k].a as int] == old(self)@.alive[m.edges[k].a as int]);
                assert(m.alive[m.edges[k].b as int] == old(self)@.alive[m.edges[k].b as int]);
            }
            assert forall|i: int, j: int| 0 <= i < j < m.labels.len() implies m.labels[i]
                != m.labels[j] by {
                if j < m.labels.len() - 1 {
                    assert(old(self)@.labels[i] != old(self)@.labels[j]);
                } else {
                    assert(old(self)@.labels[i] != utf8_bytes(s@));
                }
            }
        }
        idx
    }

    /// Appends an edge between two alive nodes.
    pub fn push_edge(&mut self, a: usize, b: usize, w: i64)
        requires
            old(self).inv(),
            (a as int) < old(self)@.labels.len(),
            (b as int) < old(self)@.labels.len(),
            old(self)@.alive[a as int],
            old(self)@.alive[b as int],
            -MAX_SCALED_WEIGHT <= w <= MAX_SCALED_WEIGHT,
        ensures
            final(self).inv(),
            final(self)@ == old(self)@.push_edge(Edge { a, b, w }),
    {
        self.edges.push(Edge { a, b, w });
        proof {
            assert(self@ =~= old(self)@.push_edge(Edge { a, b, w }));
            let m = self@;
            assert forall|k: int| 0 <= k < m.edges.len() implies m.edge_ok(#[trigger] m.edges[k])
            by {
                if k < m.edges.len() - 1 {
                    assert(old(self)@.edge_ok(old(self)@.edges[k]));
                }
            }
        }
    }

    /// Removes node `v` and every edge incident to it.
    pub fn remove_node(&mut self, v: usize)
        requires
            old(self).inv(),
            (v as int) < old(self)@.labels.len(),
            old(self)@.alive[v as int],
        ensures
            final(self).inv(),
            final(self)@ == old(self)@.remove_node(v as int),
            final(self)@.edges.len() <= old(self)@.edges.len(),
            final(self)@.alive_count() == old(self)@.alive_count() - 1,
    {
        proof {
            lemma_count_alive_update_false(self.alive@, v as int);
        }
        self.alive.set(v, false);
        self.n_alive = self.n_alive - 1;
        let n = self.edges.len();
        let mut kept: Vec<Edge> = Vec::new();
        let mut i: usize = 0;
        proof {
            assert(self.edges@.subrange(0, 0) =~= Seq::<Edge>::empty());
        }
        while i < n
            invariant
                i <= n,
                n == self.edges@.len(),
                kept@ == edges_without(self.edges@.subrange(0, i as int), v as int),
            decreases n - i,
        {
            let e = self.edges[i];
            proof {
                assert(self.edges@.subrange(0, i + 1 as int).drop_last() =~= self.edges@.subrange(
                    0,
                    i as int,
                ));
                assert(self.edges@.subrange(0, i + 1 as int).last() == self.edges@[i as int]);
            }
            if e.a != v && e.b != v {
                kept.push(e);
            }
            i = i + 1;
        }
        proof {
            assert(self.edges@.subrange(0, n as int) =~= self.edges@);
        }
        self.edges = kept;
        proof {
            lemma_edges_without_props(old(self)@.edges, v as int);
            assert(self@ =~= old(self)@.remove_node(v as int));
            let m = self@;
            assert forall|k: int| 0 <= k < m.edges.len() implies m.edge_ok(#[trigger] m.edges[k])
            by {
                let e = m.edges[k];
                let j = choose|j: int|
                    0 <= j < old(self)@.edges.len() && old(self)@.edges[j] == e;
                assert(old(self)@.edge_ok(old(self)@.edges[j]));
                assert(m.alive[e.a as int] == old(self)@.alive[e.a as int]);
                assert(m.alive[e.b as int] == old(self)@.alive[e.b as int]);
            }
        }
    }
}


/// Node `c` beats node `prev`: greater summed weight, or an equal weight
/// and a lexicographically smaller label.
pub open spec fn strictly_better(m: GraphModel, c: int, prev: int) -> bool {
    ||| m.node_weight(c) > m.node_weight(prev)
    ||| (m.node_weight(c) == m.node_weight(prev) && crate::labels::lex_lt(
        m.labels[c],
        m.labels[prev],
    ))
}

/// The heaviest node of a nonempty candidate sequence: maximal summed
/// weight, ties resolved to the lexicographically smallest label, and
/// among equal labels to the earliest candidate.
pub open spec fn spec_heaviest(m: GraphModel, cands: Seq<int>) -> int
    decreases cands.len(),
{
    if cands.len() <= 1 {
        cands[0]
    } else {
        let prev = spec_heaviest(m, cands.drop_last());
        if strictly_better(m, cands.last(), prev) {
            cands.last()
        } else {
            prev
        }
    }
}

/// The alive node indices below `n`, ascending.
pub open spec fn alive_upto(m: GraphModel, n: int) -> Seq<int>
    decreases n,
{
    if n <= 0 {
        Seq::empty()
    } else {
        alive_upto(m, n - 1) + if m.alive[n - 1] {
            seq![n - 1]
        } else {
            Seq::empty()
        }
    }
}

/// All alive node indices, ascending.
pub open spec fn alive_indices(m: GraphModel) -> Seq<int> {
    alive_upto(m, m.labels.len() as int)
}

/// `alive_upto` lists exactly the alive indices below `n`, ascending.
pub proof fn lemma_alive_upto_props(m: GraphModel, n: int)
    requires
        n <= m.alive.len(),
    ensures
        forall|k: int|
            0 <= k < alive_upto(m, n).len() ==> 0 <= #[trigger] alive_upto(m, n)[k] < n
                && m.alive[alive_upto(m, n)[k]],
        forall|v: int| 0 <= v < n && m.alive[v] ==> alive_upto(m, n).contains(v),
    decreases n,
{
    if n > 0 {
        lemma_alive_upto_props(m, n - 1);
        assert forall|v: int| 0 <= v < n && m.alive[v] implies alive_upto(m, n).contains(v) by {
            if v < n - 1 {
                let k = choose|k: int|
                    0 <= k < alive_upto(m, n - 1).len() && #[trigger] alive_upto(m, n - 1)[k]
                        == v;
                assert(alive_upto(m, n)[k] == v);
            } else {
                assert(alive_upto(m, n)[alive_upto(m, n).len() - 1] == v);
            }
        }
    }
}

/// The count of alive nodes below `n` is the length of their listing.
pub proof fn lemma_alive_upto_len(m: GraphModel, n: int)
    requires
        0 <= n <= m.alive.len(),
    ensures
        alive_upto(m, n).len() == count_alive(m.alive.take(n)),
    decreases n,
{
    if n > 0 {
        lemma_alive_upto_len(m, n - 1);
        assert(m.alive.take(n).drop_last() =~= m.alive.take(n - 1));
        assert(m.alive.take(n).last() == m.alive[n - 1]);
    }
}

/// What the heaviest node means: it is a candidate, no candidate outweighs
/// it, and among equal weights its label is lexicographically least.
pub proof fn lemma_heaviest_max(m: GraphModel, cands: Seq<int>)
    requires
        cands.len() > 0,
    ensures
        cands.contains(spec_heaviest(m, cands)),
        forall|k: int|
            0 <= k < cands.len() ==> {
                let u = #[trigger] cands[k];
                let r = spec_heaviest(m, cands);
                m.node_weight(u) < m.node_weight(r) || (m.node_weight(u) == m.node_weight(r)
                    && crate::labels::lex_le(m.labels[r], m.labels[u]))
            },
    decreases cands.len(),
{
    let r = spec_heaviest(m, cands);
    if cands.len() == 1 {
        assert(cands[0] == r);
        crate::labels::lemma_lex_le_total(m.labels[r], m.labels[r]);
    } else {
        let prefix = cands.drop_last();
        let prev = spec_heaviest(m, prefix);
        lemma_heaviest_max(m, prefix);
        let c = cands.last();
        if strictly_better(m, c, prev) {
            assert(cands[cands.len() - 1] == c);
        } else {
            let k0 = choose|k0: int| 0 <= k0 < prefix.len() && prefix[k0] == prev;
            assert(cands[k0] == prev);
        }
        crate::labels::lemma_lex_le_total(m.labels[c], m.labels[prev]);
        crate::labels::lemma_lex_le_total(m.labels[c], m.labels[c]);
        crate::labels::lemma_lex_le_total(m.labels[prev], m.labels[prev]);
        assert forall|k: int| 0 <= k < cands.len() implies {
            let u = #[trigger] cands[k];
            m.node_weight(u) < m.node_weight(r) || (m.node_weight(u) == m.node_weight(r)
                && crate::labels::lex_le(m.labels[r], m.labels[u]))
        } by {
            let u = cands[k];
            if k < cands.len() - 1 {
                assert(prefix[k] == u);
                if strictly_better(m, c, prev) {
                    if m.node_weight(u) == m.node_weight(c) {
                        crate::labels::lemma_lex_le_transitive(
                            m.labels[c],
                            m.labels[prev],
                            m.labels[u],
                        );
                    }
                }
            } else {
                assert(u == c);
                crate::labels::lemma_lex_le_total(m.labels[prev], m.labels[c]);
            }
        }
    }
}

impl Graph {
    /// The summed weight of the edges incident to node `v`.
    pub fn node_weight(&self, v: usize) -> (r: i128)
        requires
            self.inv(),
            (v as int) < self@.labels.len(),
        ensures
            r == self@.node_weight(v as int),
    {
        let n = self.edges.len();
        let mut sum: i128 = 0;
        let mut i: usize = 0;
        while i < n
            invariant
                i <= n,
                n == self.edges@.len(),
                self.inv(),
                sum == weight_sum(self.edges@.subrange(0, i as int), v as int),
                -2000000000000000 * (i as int) <= sum <= 2000000000000000 * (i as int),
            decreases n - i,
        {
            let e = self.edges[i];
            proof {
                assert(self@.edge_ok(self@.edges[i as int]));
                assert(self.edges@.subrange(0, i + 1 as int).drop_last() =~= self.edges@.subrange(
                    0,
                    i as int,
                ));
                assert(self.edges@.subrange(0, i + 1 as int).last() == self.edges@[i as int]);
                assert((i as int) < usize::MAX as int);
            }
            let mut delta: i128 = 0;
            if e.a == v {
                delta = delta + (e.w as i128);
            }
            if e.b == v {
                delta = delta + (e.w as i128);
            }
            proof {
                assert(delta == edge_contrib(self.edges@[i as int], v as int));
            }
            sum = sum + delta;
            i = i + 1;
        }
        proof {
            assert(self.edges@.subrange(0, n as int) =~= self.edges@);
        }
        sum
    }
}

/// The summed incident weight of each listed node, in order.
pub fn get_nodes_weight(nodes: &Vec<usize>, g: &Graph) -> (r: Vec<(usize, i128)>)
    requires
        g.inv(),
        forall|k: int| 0 <= k < nodes@.len() ==> (#[trigger] nodes@[k] as int) < g@.labels.len(),
    ensures
        r@.len() == nodes@.len(),
        forall|k: int|
            0 <= k < nodes@.len() ==> (#[trigger] r@[k]).0 == nodes@[k] && r@[k].1 as int
                == g@.node_weight(nodes@[k] as int),
{
    let mut r: Vec<(usize, i128)> = Vec::new();
    let mut i: usize = 0;
    while i < nodes.len()
        invariant
            i <= nodes@.len(),
            g.inv(),
            forall|k: int|
                0 <= k < nodes@.len() ==> (#[trigger] nodes@[k] as int) < g@.labels.len(),
            r@.len() == i,
            forall|k: int|
                0 <= k < i ==> (#[trigger] r@[k]).0 == nodes@[k] && r@[k].1 as int
                    == g@.node_weight(nodes@[k] as int),
        decreases nodes@.len() - i,
    {
        let v = nodes[i];
        let w = g.node_weight(v);
        r.push((v, w));
        i = i + 1;
    }
    r
}


/// Node indices as mathematical integers.
pub open spec fn to_int_seq(s: Seq<usize>) -> Seq<int> {
    s.map_values(|u: usize| u as int)
}

/// The heaviest node of a nonempty candidate list.
fn heaviest_of(g: &Graph, cands: &Vec<usize>) -> (r: (usize, i128))
    requires
        g.inv(),
        cands@.len() > 0,
        forall|k: int| 0 <= k < cands@.len() ==> (#[trigger] cands@[k] as int) < g@.labels.len(),
    ensures
        r.0 as int == spec_heaviest(g@, to_int_seq(cands@)),
        r.1 as int == g@.node_weight(r.0 as int),
        (r.0 as int) < g@.labels.len(),
{
    let ghost cs = to_int_seq(cands@);
    let mut best: usize = cands[0];
    let mut bw: i128 = g.node_weight(best);
    let mut i: usize = 1;
    proof {
        assert(cs.subrange(0, 1) =~= seq![cands@[0] as int]);
        assert(spec_heaviest(g@, cs.subrange(0, 1)) == cands@[0] as int);
    }
    while i < cands.len()
        invariant
            1 <= i <= cands@.len(),
            g.inv(),
            cs == to_int_seq(cands@),
            forall|k: int|
                0 <= k < cands@.len() ==> (#[trigger] cands@[k] as int) < g@.labels.len(),
            best as int == spec_heaviest(g@, cs.subrange(0, i as int)),
            (best as int) < g@.labels.len(),
            bw as int == g@.node_weight(best as int),
        decreases cands@.len() - i,
    {
        let u = cands[i];
        let w = g.node_weight(u);
        proof {
            assert(cs.subrange(0, i + 1 as int).drop_last() =~= cs.subrange(0, i as int));
            assert(cs.subrange(0, i + 1 as int).last() == cands@[i as int] as int);
            assert(g@.labels[u as int] == utf8_bytes(g.labels@[u as int]@));
            assert(g@.labels[best as int] == utf8_bytes(g.labels@[best as int]@));
        }
        let mut take_it = false;
        if w > bw {
            take_it = true;
        } else if w == bw {
            let lu = self_label(g, u);
            let lb = self_label(g, best);
            if crate::labels::str_le(lu, lb) && !crate::labels::str_eq(lu, lb) {
                take_it = true;
            }
        }
        proof {
            assert(take_it == strictly_better(g@, u as int, best as int));
        }
        if take_it {
            best = u;
            bw = w;
        }
        i = i + 1;
    }
    proof {
        assert(cs.subrange(0, cands@.len() as int) =~= cs);
    }
    (best, bw)
}

/// A borrowed view of node `v`'s label.
fn self_label(g: &Graph, v: usize) -> (s: &str)
    requires
        g.inv(),
        (v as int) < g@.labels.len(),
    ensures
        s.spec_bytes() == g@.labels[v as int],
{
    proof {
        assert(g@.labels[v as int] == utf8_bytes(g.labels@[v as int]@));
    }
    g.labels[v].as_str()
}

/// The heaviest node among the given candidates, or among all alive nodes
/// when none are given: the node with the greatest summed incident weight,
/// ties broken by the lexicographically smallest label.  Returns the node
/// and its summed weight.
pub fn find_heaviest_node(g: &Graph, nodes_idx: Option<&Vec<usize>>) -> (r: (usize, i128))
    requires
        g.inv(),
        match nodes_idx {
            None => g@.alive_count() > 0,
            Some(v) => v@.len() > 0 && (forall|k: int|
                0 <= k < v@.len() ==> (#[trigger] v@[k] as int) < g@.labels.len()),
        },
    ensures
        ({
            let cands = match nodes_idx {
                None => alive_indices(g@),
                Some(v) => to_int_seq(v@),
            };
            &&& r.0 as int == spec_heaviest(g@, cands)
            &&& r.1 as int == g@.node_weight(r.0 as int)
            &&& (r.0 as int) < g@.labels.len()
        }),
{
    match nodes_idx {
        Some(v) => heaviest_of(g, v),
        None => {
            let n = g.index_bound();
            let mut all: Vec<usize> = Vec::new();
            let mut j: usize = 0;
            proof {
                assert(to_int_seq(all@) =~= alive_upto(g@, 0));
            }
            while j < n
                invariant
                    j <= n,
                    n == g@.labels.len(),
                    g.inv(),
                    to_int_seq(all@) == alive_upto(g@, j as int),
                    forall|k: int|
                        0 <= k < all@.len() ==> (#[trigger] all@[k] as int) < g@.labels.len(),
                decreases n - j,
            {
                if g.is_alive(j) {
                    all.push(j);
                    proof {
                        assert(to_int_seq(all@) =~= alive_upto(g@, j + 1));
                    }
                } else {
                    proof {
                        assert(to_int_seq(all@) =~= alive_upto(g@, j + 1));
                    }
                }
                j = j + 1;
            }
            proof {
                g.lemma_inv_wf();
                lemma_alive_upto_len(g@, n as int);
                assert(g@.alive.take(n as int) =~= g@.alive);
                assert(all@.len() > 0);
            }
            heaviest_of(g, &all)
        },
    }
}


/// The labels of the alive nodes below `n`, in index order.
pub open spec fn alive_labels_upto(m: GraphModel, n: int) -> Seq<Seq<u8>>
    decreases n,
{
    if n <= 0 {
        Seq::empty()
    } else {
        alive_labels_upto(m, n - 1) + if m.alive[n - 1] {
            seq![m.labels[n - 1]]
        } else {
            Seq::empty()
        }
    }
}

/// The labels of all alive nodes, in index order.
pub open spec fn alive_labels_seq(m: GraphModel) -> Seq<Seq<u8>> {
    alive_labels_upto(m, m.labels.len() as int)
}

impl Graph {
    /// Copies of the labels of the alive nodes, in index order.
    pub fn survivors(&self) -> (r: Vec<String>)
        requires
            self.inv(),
        ensures
            crate::rows::strings_bytes(r@) == alive_labels_seq(self@),
    {
        proof {
            self.lemma_inv_wf();
        }
        let n = self.labels.len();
        let mut r: Vec<String> = Vec::new();
        let mut v: usize = 0;
        proof {
            assert(crate::rows::strings_bytes(r@) =~= alive_labels_upto(self@, 0));
        }
        while v < n
            invariant
                v <= n,
                self.inv(),
                n == self@.labels.len(),
                crate::rows::strings_bytes(r@) == alive_labels_upto(self@, v as int),
            decreases n - v,
        {
            if self.is_alive(v) {
                let lab = self.label_of(v);
                r.push(lab);
                proof {
                    assert(crate::rows::strings_bytes(r@) =~= alive_labels_upto(
                        self@,
                        v + 1,
                    ));
                }
            } else {
                proof {
                    assert(crate::rows::strings_bytes(r@) =~= alive_labels_upto(
                        self@,
                        v + 1,
                    ));
                }
            }
            v = v + 1;
        }
        r
    }
}


/// The survivor listing names each alive label exactly once: as a set it
/// is the alive label set, and no label repeats.
pub proof fn lemma_survivors_set(m: GraphModel)
    requires
        m.wf(),
    ensures
        alive_labels_seq(m).to_set() == m.alive_labels(),
        forall|i: int, j: int|
            0 <= i < j < alive_labels_seq(m).len() ==> alive_labels_seq(m)[i]
                != alive_labels_seq(m)[j],
{
    broadcast use vstd::seq_lib::group_seq_properties;

    lemma_alive_labels_upto_props(m, m.labels.len() as int);
    let s = alive_labels_seq(m);
    assert(s.to_set() =~= m.alive_labels()) by {
        assert forall|l: Seq<u8>| #[trigger] s.to_set().contains(l) implies
            m.alive_labels().contains(l) by {
            let k = choose|k: int| 0 <= k < s.len() && s[k] == l;
        }
        assert forall|l: Seq<u8>| m.alive_labels().contains(l) implies #[trigger] s.to_set()
            .contains(l) by {
            let i = choose|i: int|
                0 <= i < m.labels.len() && m.alive[i] && #[trigger] m.labels[i] == l;
            let k = choose|k: int|
                0 <= k < s.len() && #[trigger] s[k] == m.labels[i];
        }
    }
}

/// Labels of nodes at or beyond `n` are not yet listed below `n`.
pub proof fn lemma_alive_labels_upto_excludes(m: GraphModel, n: int, j: int)
    requires
        m.wf(),
        0 <= n <= j < m.labels.len(),
    ensures
        !alive_labels_upto(m, n).contains(m.labels[j]),
    decreases n,
{
    let cur = alive_labels_upto(m, n);
    if n > 0 {
        lemma_alive_labels_upto_excludes(m, n - 1, j);
        let pre = alive_labels_upto(m, n - 1);
        if cur.contains(m.labels[j]) {
            let k = choose|k: int| 0 <= k < cur.len() && #[trigger] cur[k] == m.labels[j];
            if k < pre.len() {
                assert(pre[k] == m.labels[j]);
                assert(pre.contains(m.labels[j]));
            } else {
                assert(m.alive[n - 1]);
                assert(cur[k] == m.labels[n - 1]);
                assert(m.labels[n - 1] != m.labels[j]);
            }
            assert(false);
        }
    } else {
        if cur.contains(m.labels[j]) {
            let k = choose|k: int| 0 <= k < cur.len() && #[trigger] cur[k] == m.labels[j];
            assert(false);
        }
    }
}

/// Each listed survivor label belongs to an alive node, every alive
/// node's label is listed, and no label repeats.
pub proof fn lemma_alive_labels_upto_props(m: GraphModel, n: int)
    requires
        m.wf(),
        0 <= n <= m.labels.len(),
    ensures
        forall|k: int|
            0 <= k < alive_labels_upto(m, n).len() ==> m.alive_labels().contains(
                #[trigger] alive_labels_upto(m, n)[k],
            ),
        forall|i: int|
            0 <= i < n && m.alive[i] ==> alive_labels_upto(m, n).contains(#[trigger] m.labels[i]),
        forall|i: int, j: int|
            0 <= i < j < alive_labels_upto(m, n).len() ==> alive_labels_upto(m, n)[i]
                != alive_labels_upto(m, n)[j],
    decreases n,
{
    if n > 0 {
        lemma_alive_labels_upto_props(m, n - 1);
        let pre = alive_labels_upto(m, n - 1);
        let cur = alive_labels_upto(m, n);
        assert forall|k: int| 0 <= k < cur.len() implies m.alive_labels().contains(
            #[trigger] cur[k],
        ) by {
            if k < pre.len() {
                assert(cur[k] == pre[k]);
                assert(m.alive_labels().contains(pre[k]));
            } else {
                assert(m.alive[n - 1]);
                assert(cur[k] == m.labels[n - 1]);
                assert(m.alive_labels().contains(m.labels[n - 1]));
            }
        }
        assert forall|i: int|
            0 <= i < n && m.alive[i] implies cur.contains(#[trigger] m.labels[i]) by {
            if i < n - 1 {
                let k = choose|k: int| 0 <= k < pre.len() && #[trigger] pre[k] == m.labels[i];
                assert(cur[k] == m.labels[i]);
            } else {
                assert(cur[cur.len() - 1] == m.labels[i]);
            }
        }
        assert forall|i: int, j: int|
            0 <= i < j < cur.len() implies cur[i] != cur[j] by {
            if m.alive[n - 1] && j == cur.len() - 1 {
                assert(cur[j] == m.labels[n - 1]);
                assert(cur[i] == pre[i]);
                lemma_alive_labels_upto_excludes(m, n - 1, n - 1);
                if cur[i] == cur[j] {
                    assert(pre[i] == m.labels[n - 1]);
                    assert(pre.contains(m.labels[n - 1]));
                }
            } else {
                assert(cur[i] == pre[i] && cur[j] == pre[j]);
            }
        }
    }
}

} // verus!
