//! Connected components of the live graph.
//!
//! A component is the set of nodes reachable from a root along live
//! edges.  Reachability is computed as a bounded fixpoint: expanding the
//! marked set once adds every alive node sharing an edge with a marked
//! node, and expanding as many times as there are nodes reaches every
//! node of the root's component.  Components are listed by ascending
//! root, each with its members ascending.

use vstd::prelude::*;
use crate::graph::{Graph, GraphModel, to_int_seq};

verus! {

/// One expansion: a node stays marked, or is alive and shares an edge
/// with a marked node.
pub open spec fn grow_once(m: GraphModel, marks: Seq<bool>) -> Seq<bool> {
    Seq::new(
        marks.len(),
        |u: int|
            marks[u] || (m.alive[u] && exists|w: int|
                0 <= w < marks.len() && marks[w] && m.adjacent(u, w)),
    )
}

/// `k` expansions of the marked set.
pub open spec fn grow(m: GraphModel, marks: Seq<bool>, k: nat) -> Seq<bool>
    decreases k,
{
    if k == 0 {
        marks
    } else {
        grow_once(m, grow(m, marks, (k - 1) as nat))
    }
}

/// Only `root` marked.
pub open spec fn root_marks(n: nat, root: int) -> Seq<bool> {
    Seq::new(n, |u: int| u == root)
}

/// The nodes reachable from `root`: as many expansions as there are
/// nodes reach the whole component.
pub open spec fn component_marks(m: GraphModel, root: int) -> Seq<bool> {
    grow(m, root_marks(m.labels.len(), root), m.labels.len())
}

/// The marked node indices below `n`, ascending.
pub open spec fn marked_upto(marks: Seq<bool>, n: int) -> Seq<int>
    decreases n,
{
    if n <= 0 {
        Seq::empty()
    } else {
        marked_upto(marks, n - 1) + if marks[n - 1] {
            seq![n - 1]
        } else {
            Seq::empty()
        }
    }
}

/// Both mark sets joined.
pub open spec fn union_marks(a: Seq<bool>, b: Seq<bool>) -> Seq<bool> {
    Seq::new(a.len(), |u: int| a[u] || b[u])
}

/// The components whose roots are at or after `root`, roots ascending,
/// members ascending; `taken` holds the members of earlier components.
pub open spec fn spec_components_from(m: GraphModel, taken: Seq<bool>, root: int) -> Seq<
    Seq<int>,
>
    decreases m.labels.len() - root,
{
    if root < 0 || root >= m.labels.len() {
        Seq::empty()
    } else if m.alive[root] && !taken[root] {
        let cm = component_marks(m, root);
        seq![marked_upto(cm, m.labels.len() as int)] + spec_components_from(
            m,
            union_marks(taken, cm),
            root + 1,
        )
    } else {
        spec_components_from(m, taken, root + 1)
    }
}

/// No node marked.
pub open spec fn no_marks(n: nat) -> Seq<bool> {
    Seq::new(n, |u: int| false)
}

/// All components of the live graph, canonically ordered.
pub open spec fn spec_components(m: GraphModel) -> Seq<Seq<int>> {
    spec_components_from(m, no_marks(m.labels.len()), 0)
}

/// The member lists of a component listing, as integers.
pub open spec fn comps_to_int(comps: Seq<Vec<usize>>) -> Seq<Seq<int>> {
    comps.map_values(|v: Vec<usize>| to_int_seq(v@))
}

/// Expansion only ever marks alive nodes beyond those marked at the
/// start.
pub proof fn lemma_grow_alive(m: GraphModel, marks: Seq<bool>, k: nat)
    requires
        marks.len() == m.alive.len(),
        forall|u: int| 0 <= u < marks.len() && #[trigger] marks[u] ==> m.alive[u],
    ensures
        grow(m, marks, k).len() == marks.len(),
        forall|u: int|
            0 <= u < marks.len() && #[trigger] grow(m, marks, k)[u] ==> m.alive[u],
    decreases k,
{
    if k > 0 {
        lemma_grow_alive(m, marks, (k - 1) as nat);
    }
}

/// Every listed member of a component is an alive node of the graph.
pub proof fn lemma_component_members_alive(m: GraphModel, root: int, n: int)
    requires
        m.alive.len() == m.labels.len(),
        0 <= root < m.labels.len(),
        m.alive[root],
        0 <= n <= m.labels.len(),
    ensures
        forall|k: int|
            0 <= k < marked_upto(component_marks(m, root), n).len() ==> {
                let v = #[trigger] marked_upto(component_marks(m, root), n)[k];
                &&& 0 <= v < n
                &&& m.alive[v]
            },
    decreases n,
{
    let cm = component_marks(m, root);
    lemma_grow_alive(m, root_marks(m.labels.len(), root), m.labels.len());
    if n > 0 {
        lemma_component_members_alive(m, root, n - 1);
        assert(forall|k: int|
            0 <= k < marked_upto(cm, n - 1).len() ==> marked_upto(cm, n)[k]
                == #[trigger] marked_upto(cm, n - 1)[k]);
    }
}

/// Whether any edge joins `u` to a marked node.
fn has_marked_neighbor(g: &Graph, u: usize, marks: &Vec<bool>) -> (r: bool)
    requires
        g.inv(),
        marks@.len() == g@.labels.len(),
    ensures
        r == exists|w: int|
            0 <= w < marks@.len() && marks@[w] && g@.adjacent(u as int, w),
{
    proof {
        g.lemma_inv_wf();
    }
    let edges = g.edges_ref();
    let n_e = edges.len();
    let mut j: usize = 0;
    while j < n_e
        invariant
            j <= n_e,
            g.inv(),
            n_e == g@.edges.len(),
            edges@ == g@.edges,
            marks@.len() == g@.labels.len(),
            forall|k: int|
                0 <= k < j ==> {
                    let e = #[trigger] g@.edges[k];
                    !(e.a == u as int && marks@[e.b as int]) && !(e.b == u as int
                        && marks@[e.a as int])
                },
        decreases n_e - j,
    {
        let e = edges[j];
        proof {
            g.lemma_inv_wf();
            assert(g@.edge_ok(g@.edges[j as int]));
        }
        if e.a == u && marks[e.b] {
            proof {
                let k = j as int;
                assert(g@.adjacent(u as int, e.b as int));
            }
            return true;
        }
        if e.b == u && marks[e.a] {
            proof {
                assert(g@.adjacent(u as int, e.a as int));
            }
            return true;
        }
        j = j + 1;
    }
    proof {
        if exists|w: int| 0 <= w < marks@.len() && marks@[w] && g@.adjacent(u as int, w) {
            let w = choose|w: int|
                0 <= w < marks@.len() && marks@[w] && g@.adjacent(u as int, w);
            let k = choose|k: int|
                0 <= k < g@.edges.len() && ((#[trigger] g@.edges[k]).a == u as int
                    && g@.edges[k].b == w || g@.edges[k].a == w && g@.edges[k].b == u as int);
            assert(false);
        }
    }
    false
}

/// One expansion of the marked set.
fn grow_once_exec(g: &Graph, marks: &Vec<bool>) -> (r: Vec<bool>)
    requires
        g.inv(),
        marks@.len() == g@.labels.len(),
    ensures
        r@ == grow_once(g@, marks@),
{
    proof {
        g.lemma_inv_wf();
    }
    let n = g.index_bound();
    let mut r: Vec<bool> = Vec::new();
    let mut u: usize = 0;
    while u < n
        invariant
            u <= n,
            g.inv(),
            n == g@.labels.len(),
            marks@.len() == n,
            r@.len() == u,
            forall|t: int| 0 <= t < u ==> r@[t] == grow_once(g@, marks@)[t],
        decreases n - u,
    {
        let stays = marks[u];
        let expands = if stays {
            false
        } else {
            let alive = g.is_alive(u);
            if alive {
                has_marked_neighbor(g, u, marks)
            } else {
                false
            }
        };
        r.push(stays || expands);
        u = u + 1;
    }
    proof {
        assert(r@ =~= grow_once(g@, marks@));
    }
    r
}

/// The reachable set of `root`, as a mark vector.
fn component_marks_exec(g: &Graph, root: usize) -> (r: Vec<bool>)
    requires
        g.inv(),
        (root as int) < g@.labels.len(),
    ensures
        r@ == component_marks(g@, root as int),
{
    let n = g.index_bound();
    let mut marks: Vec<bool> = Vec::new();
    let mut u: usize = 0;
    while u < n
        invariant
            u <= n,
            n == g@.labels.len(),
            marks@.len() == u,
            forall|t: int| 0 <= t < u ==> marks@[t] == (t == root as int),
        decreases n - u,
    {
        marks.push(u == root);
        u = u + 1;
    }
    proof {
        assert(marks@ =~= root_marks(g@.labels.len(), root as int));
    }
    let mut k: usize = 0;
    while k < n
        invariant
            k <= n,
            g.inv(),
            n == g@.labels.len(),
            marks@ == grow(g@, root_marks(g@.labels.len(), root as int), k as nat),
            marks@.len() == n,
        decreases n - k,
    {
        proof {
            lemma_grow_alive_len(g@, root_marks(g@.labels.len(), root as int), k as nat);
        }
        marks = grow_once_exec(g, &marks);
        k = k + 1;
    }
    marks
}

/// Expansion keeps the length of the mark vector.
pub proof fn lemma_grow_alive_len(m: GraphModel, marks: Seq<bool>, k: nat)
    ensures
        grow(m, marks, k).len() == marks.len(),
    decreases k,
{
    if k > 0 {
        lemma_grow_alive_len(m, marks, (k - 1) as nat);
    }
}

/// The marked node indices, ascending.
fn collect_marked(marks: &Vec<bool>) -> (r: Vec<usize>)
    ensures
        to_int_seq(r@) == marked_upto(marks@, marks@.len() as int),
{
    let n = marks.len();
    let mut r: Vec<usize> = Vec::new();
    let mut u: usize = 0;
    proof {
        assert(to_int_seq(r@) =~= marked_upto(marks@, 0));
    }
    while u < n
        invariant
            u <= n,
            n == marks@.len(),
            to_int_seq(r@) == marked_upto(marks@, u as int),
        decreases n - u,
    {
        if marks[u] {
            r.push(u);
        }
        proof {
            assert(to_int_seq(r@) =~= marked_upto(marks@, u + 1));
        }
        u = u + 1;
    }
    r
}

/// The connected components of the live graph: every alive node appears
/// in the component of the smallest root it is reachable from; components
/// are listed by ascending root with members ascending.
pub fn connected_components(g: &Graph) -> (comps: Vec<Vec<usize>>)
    requires
        g.inv(),
    ensures
        comps_to_int(comps@) == spec_components(g@),
        forall|i: int|
            0 <= i < comps@.len() ==> forall|k: int|
                0 <= k < (#[trigger] comps@[i])@.len() ==> ((#[trigger] comps@[i]@[k]) as int)
                    < g@.labels.len() && g@.alive[comps@[i]@[k] as int],
{
    proof {
        g.lemma_inv_wf();
    }
    let n = g.index_bound();
    let mut taken: Vec<bool> = Vec::new();
    let mut u: usize = 0;
    while u < n
        invariant
            u <= n,
            taken@.len() == u,
            forall|t: int| 0 <= t < u ==> !(#[trigger] taken@[t]),
        decreases n - u,
    {
        taken.push(false);
        u = u + 1;
    }
    proof {
        assert(taken@ =~= no_marks(g@.labels.len()));
    }
    let mut comps: Vec<Vec<usize>> = Vec::new();
    let mut root: usize = 0;
    while root < n
        invariant
            root <= n,
            g.inv(),
            n == g@.labels.len(),
            taken@.len() == n,
            spec_components(g@) == comps_to_int(comps@) + spec_components_from(
                g@,
                taken@,
                root as int,
            ),
            forall|i: int|
                0 <= i < comps@.len() ==> forall|k: int|
                    0 <= k < (#[trigger] comps@[i])@.len() ==> ((#[trigger] comps@[i]@[k]) as int)
                        < g@.labels.len() && g@.alive[comps@[i]@[k] as int],
        decreases n - root,
    {
        let ghost comps0 = comps_to_int(comps@);
        if g.is_alive(root) && !taken[root] {
            let cm = component_marks_exec(g, root);
            proof {
                g.lemma_inv_wf();
                lemma_grow_alive_len(g@, root_marks(g@.labels.len(), root as int), g@.labels.len());
            }
            let grp = collect_marked(&cm);
            proof {
                lemma_component_members_alive(g@, root as int, n as int);
            }
            let mut t: usize = 0;
            let ghost taken0 = taken@;
            while t < n
                invariant
                    t <= n,
                    taken@.len() == n,
                    cm@.len() == n,
                    taken0.len() == n,
                    forall|w: int| 0 <= w < t ==> taken@[w] == (taken0[w] || cm@[w]),
                    forall|w: int| t <= w < n ==> taken@[w] == taken0[w],
                decreases n - t,
            {
                let ghost before_set = taken@;
                if cm[t] {
                    taken.set(t, true);
                }
                proof {
                    assert(taken@[t as int] == (taken0[t as int] || cm@[t as int]));
                    assert(forall|w: int|
                        0 <= w < t ==> #[trigger] taken@[w] == before_set[w]);
                }
                t = t + 1;
            }
            proof {
                assert(taken@ =~= union_marks(taken0, cm@));
            }
            comps.push(grp);
            proof {
                assert forall|k: int| 0 <= k < grp@.len() implies ((#[trigger] grp@[k]) as int)
                    < g@.labels.len() && g@.alive[grp@[k] as int] by {
                    assert(to_int_seq(grp@)[k] == grp@[k] as int);
                    assert(marked_upto(component_marks(g@, root as int), n as int)[k]
                        == grp@[k] as int);
                }
                assert(comps_to_int(comps@) =~= comps0.push(to_int_seq(grp@)));
                assert(comps_to_int(comps@) + spec_components_from(g@, taken@, root + 1)
                    =~= comps0 + (seq![to_int_seq(grp@)] + spec_components_from(
                    g@,
                    taken@,
                    root + 1,
                )));
            }
        }
        root = root + 1;
    }
    comps
}


/// One expansion never unmarks a node.
pub proof fn lemma_grow_once_mono(m: GraphModel, marks: Seq<bool>)
    ensures
        forall|u: int| 0 <= u < marks.len() && #[trigger] marks[u] ==> grow_once(m, marks)[u],
{
}

/// Marked sets only grow across expansions.
pub proof fn lemma_grow_mono(m: GraphModel, marks: Seq<bool>, k: nat)
    ensures
        forall|u: int|
            0 <= u < marks.len() && #[trigger] marks[u] ==> grow(m, marks, k)[u],
    decreases k,
{
    lemma_grow_alive_len(m, marks, k);
    if k > 0 {
        lemma_grow_mono(m, marks, (k - 1) as nat);
        lemma_grow_once_mono(m, grow(m, marks, (k - 1) as nat));
        lemma_grow_alive_len(m, marks, (k - 1) as nat);
    }
}

/// A pointwise-larger mark vector that differs somewhere has a strictly
/// larger count.
pub proof fn lemma_count_strict(a: Seq<bool>, b: Seq<bool>, t0: int)
    requires
        a.len() == b.len(),
        forall|t: int| 0 <= t < a.len() && #[trigger] a[t] ==> b[t],
        0 <= t0 < a.len(),
        !a[t0],
        b[t0],
    ensures
        crate::graph::count_alive(a) < crate::graph::count_alive(b),
    decreases a.len(),
{
    assert(forall|t: int| 0 <= t < a.len() - 1 ==> #[trigger] a.drop_last()[t] == a[t]);
    assert(forall|t: int| 0 <= t < b.len() - 1 ==> #[trigger] b.drop_last()[t] == b[t]);
    if t0 == a.len() - 1 {
        crate::prune::lemma_count_alive_mono(b.drop_last(), a.drop_last());
    } else {
        lemma_count_strict(a.drop_last(), b.drop_last(), t0);
    }
}

/// After as many expansions as there are nodes, the marked set is a
/// fixpoint: one more expansion changes nothing.
pub proof fn lemma_grow_fixpoint(m: GraphModel, marks: Seq<bool>)
    requires
        marks.len() == m.labels.len(),
    ensures
        grow_once(m, grow(m, marks, m.labels.len())) == grow(m, marks, m.labels.len()),
{
    let n = m.labels.len();
    lemma_grow_progress(m, marks, n);
    let cm = grow(m, marks, n);
    lemma_grow_alive_len(m, marks, n);
    if grow_once(m, cm) != cm {
        crate::graph::lemma_count_alive_le(marks);
        crate::graph::lemma_count_alive_le(cm);
        assert(crate::graph::count_alive(cm) >= crate::graph::count_alive(marks) + n);
        // Every node is then marked, so one more expansion is a no-op.
        assert(crate::graph::count_alive(cm) == cm.len());
        lemma_count_alive_full(cm);
        lemma_grow_once_mono(m, cm);
        assert(grow_once(m, cm) =~= cm);
    }
}

/// A full count means every flag is set.
pub proof fn lemma_count_alive_full(s: Seq<bool>)
    requires
        crate::graph::count_alive(s) == s.len(),
    ensures
        forall|t: int| 0 <= t < s.len() ==> s[t],
    decreases s.len(),
{
    if s.len() > 0 {
        crate::graph::lemma_count_alive_le(s.drop_last());
        lemma_count_alive_full(s.drop_last());
        assert forall|t: int| 0 <= t < s.len() implies s[t] by {
            if t < s.len() - 1 {
                assert(s.drop_last()[t]);
            }
        }
    }
}

/// Either expansion has stalled by round `k`, or each of the `k` rounds
/// marked at least one new node.
pub proof fn lemma_grow_progress(m: GraphModel, marks: Seq<bool>, k: nat)
    requires
        marks.len() == m.labels.len(),
    ensures
        grow_once(m, grow(m, marks, k)) == grow(m, marks, k) || crate::graph::count_alive(
            grow(m, marks, k),
        ) >= crate::graph::count_alive(marks) + k,
    decreases k,
{
    lemma_grow_alive_len(m, marks, k);
    if k == 0 {
    } else {
        let prev = grow(m, marks, (k - 1) as nat);
        let cur = grow(m, marks, k);
        lemma_grow_progress(m, marks, (k - 1) as nat);
        lemma_grow_alive_len(m, marks, (k - 1) as nat);
        lemma_grow_once_mono(m, prev);
        if grow_once(m, prev) == prev {
            assert(cur == prev);
            assert(grow_once(m, cur) == cur);
        } else {
            // The previous round still grew the set somewhere.
            if forall|t: int| 0 <= t < prev.len() ==> prev[t] == #[trigger] cur[t] {
                assert(prev =~= cur);
            }
            let t0 = choose|t0: int| 0 <= t0 < prev.len() && prev[t0] != #[trigger] cur[t0];
            assert(!prev[t0] && cur[t0]);
            lemma_count_strict(prev, cur, t0);
            if grow_once(m, cur) != cur {
                assert(crate::graph::count_alive(cur) >= crate::graph::count_alive(marks) + k);
            }
        }
    }
}

/// A set of nodes closed under live adjacency.
pub open spec fn adj_closed(m: GraphModel, s: Seq<bool>) -> bool {
    &&& s.len() == m.labels.len()
    &&& forall|u: int, w: int|
        0 <= u < s.len() && 0 <= w < s.len() && m.alive[u] && #[trigger] s[w]
            && #[trigger] m.adjacent(u, w) ==> s[u]
}

/// A component's mark set is closed under live adjacency.
pub proof fn lemma_component_closed(m: GraphModel, root: int)
    requires
        m.wf(),
    ensures
        adj_closed(m, component_marks(m, root)),
{
    lemma_grow_fixpoint(m, root_marks(m.labels.len(), root));
    let cm = component_marks(m, root);
    lemma_grow_alive_len(m, root_marks(m.labels.len(), root), m.labels.len());
    assert forall|u: int, w: int|
        0 <= u < cm.len() && 0 <= w < cm.len() && m.alive[u] && #[trigger] cm[w]
            && #[trigger] m.adjacent(u, w) implies cm[u] by {
        assert(grow_once(m, cm)[u]);
    }
}

/// Growth from marks inside a closed set stays inside it, and growth from
/// marks disjoint from a closed set stays disjoint from it.
pub proof fn lemma_grow_confined(m: GraphModel, marks: Seq<bool>, s: Seq<bool>, k: nat)
    requires
        m.wf(),
        marks.len() == m.labels.len(),
        adj_closed(m, s),
    ensures
        (forall|u: int| 0 <= u < marks.len() && #[trigger] marks[u] ==> s[u]) ==> (forall|u: int|
            0 <= u < marks.len() && #[trigger] grow(m, marks, k)[u] ==> s[u]),
        (forall|u: int| 0 <= u < marks.len() && #[trigger] marks[u] ==> !s[u]) ==> (forall|u: int|
            0 <= u < marks.len() && #[trigger] grow(m, marks, k)[u] ==> !s[u]),
    decreases k,
{
    lemma_grow_alive_len(m, marks, k);
    if k > 0 {
        lemma_grow_confined(m, marks, s, (k - 1) as nat);
        let prev = grow(m, marks, (k - 1) as nat);
        lemma_grow_alive_len(m, marks, (k - 1) as nat);
        if forall|u: int| 0 <= u < marks.len() && #[trigger] marks[u] ==> s[u] {
            assert forall|u: int|
                0 <= u < marks.len() && #[trigger] grow(m, marks, k)[u] implies s[u] by {
                if !prev[u] {
                    let w = choose|w: int|
                        0 <= w < prev.len() && #[trigger] prev[w] && m.adjacent(u, w);
                    assert(s[w]);
                }
            }
        }
        if forall|u: int| 0 <= u < marks.len() && #[trigger] marks[u] ==> !s[u] {
            assert forall|u: int|
                0 <= u < marks.len() && #[trigger] grow(m, marks, k)[u] implies !s[u] by {
                if !prev[u] {
                    let w = choose|w: int|
                        0 <= w < prev.len() && #[trigger] prev[w] && m.adjacent(u, w);
                    assert(!s[w]);
                    if s[u] {
                        assert(m.adjacent(w, u)) by {
                            let e = choose|e: int|
                                0 <= e < m.edges.len() && ((#[trigger] m.edges[e]).a == u
                                    && m.edges[e].b == w || m.edges[e].a == w && m.edges[e].b
                                    == u);
                            assert(m.edges[e].a == w && m.edges[e].b == u || m.edges[e].a == u
                                && m.edges[e].b == w);
                        }
                        assert(m.alive[w]) by {
                            let e = choose|e: int|
                                0 <= e < m.edges.len() && ((#[trigger] m.edges[e]).a == u
                                    && m.edges[e].b == w || m.edges[e].a == w && m.edges[e].b
                                    == u);
                            assert(m.edge_ok(m.edges[e]));
                        }
                        assert(s[w]);
                    }
                }
            }
        }
    }
}


/// A mark vector lists exactly the marked indices below `n`.
pub proof fn lemma_marked_upto_iff(marks: Seq<bool>, n: int, v: int)
    requires
        0 <= n <= marks.len(),
    ensures
        marked_upto(marks, n).contains(v) <==> (0 <= v < n && marks[v]),
    decreases n,
{
    let cur = marked_upto(marks, n);
    if n > 0 {
        lemma_marked_upto_iff(marks, n - 1, v);
        let pre = marked_upto(marks, n - 1);
        if cur.contains(v) {
            let k = choose|k: int| 0 <= k < cur.len() && #[trigger] cur[k] == v;
            if k < pre.len() {
                assert(pre[k] == v);
                assert(pre.contains(v));
            }
        }
        if 0 <= v < n && marks[v] {
            if v < n - 1 {
                let k = choose|k: int| 0 <= k < pre.len() && #[trigger] pre[k] == v;
                assert(cur[k] == v);
            } else {
                assert(cur[cur.len() - 1] == v);
            }
        }
    } else {
        if cur.contains(v) {
            let k = choose|k: int| 0 <= k < cur.len() && #[trigger] cur[k] == v;
        }
    }
}

/// Node `u` is a member of group `i` of the listing.
pub open spec fn in_group(cs: Seq<Seq<int>>, i: int, u: int) -> bool {
    0 <= i < cs.len() && cs[i].contains(u)
}

/// The component listing from `root` onward: its members are exactly the
/// alive nodes not yet taken, each in one group, and no live edge leaves
/// a group.
pub proof fn lemma_components_from_props(m: GraphModel, taken: Seq<bool>, root: int)
    requires
        m.wf(),
        taken.len() == m.labels.len(),
        0 <= root <= m.labels.len(),
        adj_closed(m, taken),
        forall|u: int| 0 <= u < taken.len() && #[trigger] taken[u] ==> m.alive[u],
        forall|u: int| 0 <= u < root && m.alive[u] ==> taken[u],
    ensures
        ({
            let cs = spec_components_from(m, taken, root);
            &&& forall|i: int, u: int|
                #[trigger] in_group(cs, i, u) ==> 0 <= u < m.labels.len() && m.alive[u]
                    && !taken[u]
            &&& forall|u: int|
                0 <= u < m.labels.len() && m.alive[u] && !taken[u] ==> exists|i: int|
                    #[trigger] in_group(cs, i, u)
            &&& forall|i: int, j: int, u: int|
                #![trigger in_group(cs, i, u), in_group(cs, j, u)]
                in_group(cs, i, u) && in_group(cs, j, u) ==> i == j
            &&& forall|i: int, u: int, w: int|
                #![trigger in_group(cs, i, w), m.adjacent(u, w)]
                in_group(cs, i, w) && 0 <= u < m.labels.len() && m.alive[u] && m.adjacent(u, w)
                    ==> in_group(cs, i, u)
        }),
    decreases m.labels.len() - root,
{
    let n = m.labels.len() as int;
    let cs = spec_components_from(m, taken, root);
    if root == n {
        assert(cs == Seq::<Seq<int>>::empty());
        assert forall|i: int, u: int| #[trigger] in_group(cs, i, u) implies 0 <= u
            < m.labels.len() && m.alive[u] && !taken[u] by {
            assert(cs.len() == 0);
            assert(false);
        }
        assert forall|u: int|
            0 <= u < m.labels.len() && m.alive[u] && !taken[u] implies exists|i: int|
            #[trigger] in_group(cs, i, u) by {
            assert(taken[u]);
        }
    } else if m.alive[root] && !taken[root] {
        let cm = component_marks(m, root);
        let rm = root_marks(m.labels.len(), root);
        lemma_grow_alive_len(m, rm, m.labels.len());
        lemma_grow_alive(m, rm, m.labels.len());
        lemma_grow_mono(m, rm, m.labels.len());
        lemma_component_closed(m, root);
        lemma_grow_confined(m, rm, taken, m.labels.len());
        assert forall|u: int| 0 <= u < rm.len() && #[trigger] rm[u] implies !taken[u] by {
            assert(rm[u] == (u == root));
        }
        assert(forall|u: int| 0 <= u < cm.len() && #[trigger] cm[u] ==> !taken[u]);
        assert(rm[root]);
        assert(cm[root]);
        let grp = marked_upto(cm, n);
        let taken2 = union_marks(taken, cm);
        assert(adj_closed(m, taken2)) by {
            assert forall|u: int, w: int|
                0 <= u < taken2.len() && 0 <= w < taken2.len() && m.alive[u]
                    && #[trigger] taken2[w] && #[trigger] m.adjacent(u, w) implies taken2[u] by {
                if taken[w] {
                    assert(taken[u]);
                } else {
                    assert(cm[w]);
                    assert(cm[u]);
                }
            }
        }
        lemma_components_from_props(m, taken2, root + 1);
        let cs2 = spec_components_from(m, taken2, root + 1);
        assert(cs == seq![grp] + cs2);
        assert(cs[0] == grp);
        assert(forall|i: int| 1 <= i < cs.len() ==> #[trigger] cs[i] == cs2[i - 1]);
        assert forall|i: int, u: int|
            #[trigger] in_group(cs, i, u) implies 0 <= u < m.labels.len() && m.alive[u]
            && !taken[u] by {
            if i == 0 {
                lemma_marked_upto_iff(cm, n, u);
            } else {
                assert(in_group(cs2, i - 1, u));
            }
        }
        assert forall|u: int|
            0 <= u < m.labels.len() && m.alive[u] && !taken[u] implies exists|i: int|
            #[trigger] in_group(cs, i, u) by {
            if cm[u] {
                lemma_marked_upto_iff(cm, n, u);
                assert(in_group(cs, 0, u));
            } else {
                assert(!taken2[u]);
                let i = choose|i: int| #[trigger] in_group(cs2, i, u);
                assert(in_group(cs, i + 1, u));
            }
        }
        assert forall|i: int, j: int, u: int|
            #![trigger in_group(cs, i, u), in_group(cs, j, u)]
            in_group(cs, i, u) && in_group(cs, j, u) implies i == j by {
            if i == 0 && j >= 1 {
                lemma_marked_upto_iff(cm, n, u);
                assert(cm[u] && taken2[u]);
                assert(in_group(cs2, j - 1, u));
                assert(!taken2[u]);
            } else if j == 0 && i >= 1 {
                lemma_marked_upto_iff(cm, n, u);
                assert(cm[u] && taken2[u]);
                assert(in_group(cs2, i - 1, u));
                assert(!taken2[u]);
            } else if i >= 1 && j >= 1 {
                assert(in_group(cs2, i - 1, u) && in_group(cs2, j - 1, u));
            }
        }
        assert forall|i: int, u: int, w: int|
            #![trigger in_group(cs, i, w), m.adjacent(u, w)]
            in_group(cs, i, w) && 0 <= u < m.labels.len() && m.alive[u] && m.adjacent(u, w)
            implies in_group(cs, i, u) by {
            if i == 0 {
                lemma_marked_upto_iff(cm, n, w);
                assert(cm[w]);
                assert(cm[u]);
                lemma_marked_upto_iff(cm, n, u);
            } else {
                assert(in_group(cs2, i - 1, w));
                assert(in_group(cs2, i - 1, u));
            }
        }
    } else {
        lemma_components_from_props(m, taken, root + 1);
        assert(cs == spec_components_from(m, taken, root + 1));
    }
}

/// The component listing partitions the alive nodes: every member is an
/// alive node, every alive node stands in exactly one group, and both
/// endpoints of every live edge stand in the same group.
pub proof fn lemma_components_partition(m: GraphModel)
    requires
        m.wf(),
    ensures
        ({
            let cs = spec_components(m);
            &&& forall|i: int, u: int|
                #[trigger] in_group(cs, i, u) ==> 0 <= u < m.labels.len() && m.alive[u]
            &&& forall|u: int|
                0 <= u < m.labels.len() && m.alive[u] ==> exists|i: int|
                    #[trigger] in_group(cs, i, u)
            &&& forall|i: int, j: int, u: int|
                #![trigger in_group(cs, i, u), in_group(cs, j, u)]
                in_group(cs, i, u) && in_group(cs, j, u) ==> i == j
            &&& forall|k: int, i: int|
                0 <= k < m.edges.len() && #[trigger] in_group(cs, i, (#[trigger] m.edges[k]).a as int)
                    ==> in_group(cs, i, m.edges[k].b as int)
        }),
{
    let none = no_marks(m.labels.len());
    assert(adj_closed(m, none)) by {
        assert forall|u: int, w: int|
            0 <= u < none.len() && 0 <= w < none.len() && m.alive[u] && #[trigger] none[w]
                && #[trigger] m.adjacent(u, w) implies none[u] by {}
    }
    assert(forall|u: int| 0 <= u < none.len() && #[trigger] none[u] ==> m.alive[u]);
    lemma_components_from_props(m, none, 0);
    assert(spec_components(m) == spec_components_from(m, none, 0));
    assert forall|i: int, u: int|
        #[trigger] in_group(spec_components(m), i, u) implies 0 <= u < m.labels.len()
        && m.alive[u] by {}
    assert forall|u: int|
        0 <= u < m.labels.len() && m.alive[u] implies exists|i: int|
        #[trigger] in_group(spec_components(m), i, u) by {
        assert(!none[u]);
    }
    let cs = spec_components(m);
    assert forall|k: int, i: int|
        0 <= k < m.edges.len() && #[trigger] in_group(cs, i, (#[trigger] m.edges[k]).a as int)
        implies in_group(cs, i, m.edges[k].b as int) by {
        let e = m.edges[k];
        assert(m.edge_ok(e));
        assert(m.adjacent(e.b as int, e.a as int));
        assert(in_group(cs, i, e.b as int));
    }
}


/// A walk through the live graph: consecutive nodes share an edge and
/// every node on it is alive.
pub open spec fn is_path(m: GraphModel, p: Seq<int>) -> bool
    decreases p.len(),
{
    if p.len() == 0 {
        false
    } else if p.len() == 1 {
        0 <= p[0] < m.labels.len() && m.alive[p[0]]
    } else {
        &&& 0 <= p[0] < m.labels.len()
        &&& m.alive[p[0]]
        &&& m.adjacent(p[0], p[1])
        &&& is_path(m, p.drop_first())
    }
}

/// A live walk leads from `u` to `w`.
pub open spec fn connected(m: GraphModel, u: int, w: int) -> bool {
    exists|p: Seq<int>| is_path(m, p) && p.first() == u && p.last() == w
}

/// A walk extends by one adjacent alive node.
pub proof fn lemma_path_push(m: GraphModel, p: Seq<int>, x: int)
    requires
        is_path(m, p),
        0 <= x < m.labels.len(),
        m.alive[x],
        m.adjacent(p.last(), x),
    ensures
        is_path(m, p.push(x)),
        p.push(x).first() == p.first(),
        p.push(x).last() == x,
    decreases p.len(),
{
    if p.len() == 0 {
        assert(false);
    } else if p.len() == 1 {
        assert(p.push(x)[0] == p[0] && p.push(x)[1] == x);
        assert(p.push(x).drop_first() =~= seq![x]);
        assert(is_path(m, seq![x]));
    } else {
        assert(p.push(x).drop_first() =~= p.drop_first().push(x));
        assert(p.drop_first().last() == p.last());
        lemma_path_push(m, p.drop_first(), x);
        assert(p.push(x)[0] == p[0] && p.push(x)[1] == p[1]);
    }
}

/// Every node the expansion marks is connected to a marked starting node;
/// for a single-root start, to the root.
pub proof fn lemma_grow_connected(m: GraphModel, root: int, k: nat)
    requires
        m.wf(),
        0 <= root < m.labels.len(),
        m.alive[root],
    ensures
        forall|u: int|
            0 <= u < m.labels.len() && #[trigger] grow(
                m,
                root_marks(m.labels.len(), root),
                k,
            )[u] ==> connected(m, root, u),
    decreases k,
{
    let rm = root_marks(m.labels.len(), root);
    lemma_grow_alive_len(m, rm, k);
    lemma_grow_alive(m, rm, k);
    if k == 0 {
        assert forall|u: int|
            0 <= u < m.labels.len() && #[trigger] grow(m, rm, 0)[u] implies connected(
            m,
            root,
            u,
        ) by {
            assert(u == root);
            let p = seq![root];
            assert(is_path(m, p) && p.first() == root && p.last() == root);
        }
    } else {
        lemma_grow_connected(m, root, (k - 1) as nat);
        let prev = grow(m, rm, (k - 1) as nat);
        lemma_grow_alive_len(m, rm, (k - 1) as nat);
        lemma_grow_alive(m, rm, (k - 1) as nat);
        assert forall|u: int|
            0 <= u < m.labels.len() && #[trigger] grow(m, rm, k)[u] implies connected(
            m,
            root,
            u,
        ) by {
            if prev[u] {
            } else {
                let w = choose|w: int|
                    0 <= w < prev.len() && #[trigger] prev[w] && m.adjacent(u, w);
                assert(connected(m, root, w));
                let p = choose|p: Seq<int>|
                    #![trigger is_path(m, p)]
                    is_path(m, p) && p.first() == root && p.last() == w;
                assert(m.adjacent(w, u)) by {
                    let e = choose|e: int|
                        0 <= e < m.edges.len() && ((#[trigger] m.edges[e]).a == u
                            && m.edges[e].b == w || m.edges[e].a == w && m.edges[e].b == u);
                }
                lemma_path_push(m, p, u);
                assert(is_path(m, p.push(u)) && p.push(u).first() == root && p.push(u).last()
                    == u);
            }
        }
    }
}

/// Every node of a component's mark set is connected to the root by a
/// live walk; with the closure and partition facts this makes each listed
/// group a maximal connected set.
pub proof fn lemma_component_connected(m: GraphModel, root: int)
    requires
        m.wf(),
        0 <= root < m.labels.len(),
        m.alive[root],
    ensures
        forall|u: int|
            0 <= u < m.labels.len() && #[trigger] component_marks(m, root)[u] ==> connected(
                m,
                root,
                u,
            ),
{
    lemma_grow_connected(m, root, m.labels.len());
}

} // verus!
