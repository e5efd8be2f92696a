//! The elimination engine.
//!
//! While edges remain, each iteration selects the heaviest node of every
//! candidate set (all alive nodes, or every multi-node component), then
//! removes either the selected nodes or, when the heavy nodes are kept,
//! their neighbors.  Removed labels accumulate in removal order.  The
//! loop ends when no edges remain, or when an iteration eliminates no
//! node and so could never make further progress.

use vstd::prelude::*;
use crate::graph::{
    Graph, GraphModel, alive_indices, spec_heaviest, count_alive,
};
use crate::components::spec_components;
use crate::FatalError;

verus! {

/// The alive neighbors of `h` below `n`, ascending: the nodes sharing an
/// edge with `h`, including `h` itself when it carries a self-loop.
pub open spec fn adj_alive_upto(m: GraphModel, h: int, n: int) -> Seq<int>
    decreases n,
{
    if n <= 0 {
        Seq::empty()
    } else {
        adj_alive_upto(m, h, n - 1) + if m.alive[n - 1] && m.adjacent(n - 1, h) {
            seq![n - 1]
        } else {
            Seq::empty()
        }
    }
}

/// Removes the listed nodes in order, collecting the labels of those that
/// were alive when their turn came.
pub open spec fn remove_list(m: GraphModel, vs: Seq<int>) -> (GraphModel, Seq<Seq<u8>>)
    decreases vs.len(),
{
    if vs.len() == 0 {
        (m, Seq::empty())
    } else {
        let v = vs[0];
        let hit = 0 <= v < m.labels.len() && m.alive[v];
        let m1 = if hit {
            m.remove_node(v)
        } else {
            m
        };
        let e1: Seq<Seq<u8>> = if hit {
            seq![m.labels[v]]
        } else {
            Seq::empty()
        };
        let rest = remove_list(m1, vs.drop_first());
        (rest.0, e1 + rest.1)
    }
}

/// One selected heavy node eliminated under the policy: the node itself,
/// or, keeping the heavy node, its current alive neighbors.
pub open spec fn spec_remove_one(m: GraphModel, h: int, keep_heavy: bool) -> (
    GraphModel,
    Seq<Seq<u8>>,
) {
    if !(0 <= h < m.labels.len()) {
        (m, Seq::empty())
    } else if keep_heavy {
        remove_list(m, adj_alive_upto(m, h, m.labels.len() as int))
    } else if m.alive[h] {
        (m.remove_node(h), seq![m.labels[h]])
    } else {
        (m, Seq::empty())
    }
}

/// Every selected heavy node eliminated in order.
pub open spec fn spec_eliminate(m: GraphModel, heavies: Seq<int>, keep_heavy: bool) -> (
    GraphModel,
    Seq<Seq<u8>>,
)
    decreases heavies.len(),
{
    if heavies.len() == 0 {
        (m, Seq::empty())
    } else {
        let one = spec_remove_one(m, heavies[0], keep_heavy);
        let rest = spec_eliminate(one.0, heavies.drop_first(), keep_heavy);
        (rest.0, one.1 + rest.1)
    }
}

/// The candidate sets with more than one member, in order.
pub open spec fn multi_comps(sets: Seq<Seq<int>>) -> Seq<Seq<int>>
    decreases sets.len(),
{
    if sets.len() == 0 {
        Seq::empty()
    } else {
        let rest = multi_comps(sets.drop_first());
        if sets[0].len() > 1 {
            seq![sets[0]] + rest
        } else {
            rest
        }
    }
}

/// The candidate sets of one iteration: every multi-node component, or
/// all alive nodes as a single set.
pub open spec fn spec_cand_sets(m: GraphModel, per_component: bool) -> Seq<Seq<int>> {
    if per_component {
        multi_comps(spec_components(m))
    } else {
        seq![alive_indices(m)]
    }
}

/// The heaviest node of each nonempty candidate set, in order.
pub open spec fn heavies_of(m: GraphModel, sets: Seq<Seq<int>>) -> Seq<int>
    decreases sets.len(),
{
    if sets.len() == 0 {
        Seq::empty()
    } else {
        let rest = heavies_of(m, sets.drop_first());
        if sets[0].len() >= 1 {
            seq![spec_heaviest(m, sets[0])] + rest
        } else {
            rest
        }
    }
}

/// One pruning iteration: select, then eliminate.
pub open spec fn spec_step(m: GraphModel, per_component: bool, keep_heavy: bool) -> (
    GraphModel,
    Seq<Seq<u8>>,
) {
    spec_eliminate(m, heavies_of(m, spec_cand_sets(m, per_component)), keep_heavy)
}

/// The whole pruning run: iterate while edges remain and iterations make
/// progress; the removed labels accumulate in removal order.
pub open spec fn spec_prune(m: GraphModel, per_component: bool, keep_heavy: bool) -> (
    GraphModel,
    Seq<Seq<u8>>,
)
    decreases m.alive_count(),
{
    if m.edges.len() == 0 {
        (m, Seq::empty())
    } else {
        let step = spec_step(m, per_component, keep_heavy);
        if step.0.alive_count() < m.alive_count() {
            let rest = spec_prune(step.0, per_component, keep_heavy);
            (rest.0, step.1 + rest.1)
        } else {
            step
        }
    }
}

/// What eliminating nodes does to a well-formed graph: the node set is
/// fixed, liveness only falls, edges only disappear, and the removed
/// labels are distinct alive labels that are alive no longer.
pub open spec fn removal_ok(m: GraphModel, mf: GraphModel, ex: Seq<Seq<u8>>) -> bool {
    &&& mf.wf()
    &&& mf.labels == m.labels
    &&& mf.alive.len() == m.alive.len()
    &&& mf.edges.len() <= m.edges.len()
    &&& (forall|k: int|
        #![trigger mf.edges[k]]
        0 <= k < mf.edges.len() ==> m.edges.contains(mf.edges[k]))
    &&& (forall|t: int| 0 <= t < m.alive.len() && #[trigger] mf.alive[t] ==> m.alive[t])
    &&& mf.alive_labels() == m.alive_labels().difference(ex.to_set())
    &&& ex.to_set().subset_of(m.alive_labels())
    &&& (forall|i: int, j: int| 0 <= i < j < ex.len() ==> ex[i] != ex[j])
    &&& (forall|i: int| 0 <= i < ex.len() ==> !mf.alive_labels().contains(#[trigger] ex[i]))
}

/// Eliminating nothing changes nothing.
pub proof fn lemma_removal_refl(m: GraphModel)
    requires
        m.wf(),
    ensures
        removal_ok(m, m, Seq::empty()),
{
    broadcast use vstd::seq_lib::group_seq_properties;

    assert(Seq::<Seq<u8>>::empty().to_set() =~= Set::empty());
    assert(m.alive_labels() =~= m.alive_labels().difference(Seq::<Seq<u8>>::empty().to_set()));
    assert forall|k: int|
        #![trigger m.edges[k]]
        0 <= k < m.edges.len() implies m.edges.contains(m.edges[k]) by {}
}

/// Removal summaries compose.
pub proof fn lemma_removal_compose(
    m: GraphModel,
    m1: GraphModel,
    ex1: Seq<Seq<u8>>,
    m2: GraphModel,
    ex2: Seq<Seq<u8>>,
)
    requires
        removal_ok(m, m1, ex1),
        removal_ok(m1, m2, ex2),
    ensures
        removal_ok(m, m2, ex1 + ex2),
{
    broadcast use vstd::seq_lib::group_seq_properties;

    let ex = ex1 + ex2;
    assert forall|k: int|
        #![trigger m2.edges[k]]
        0 <= k < m2.edges.len() implies m.edges.contains(m2.edges[k]) by {
        assert(m1.edges.contains(m2.edges[k]));
        let j1 = choose|j1: int| 0 <= j1 < m1.edges.len() && #[trigger] m1.edges[j1]
            == m2.edges[k];
        assert(m.edges.contains(m1.edges[j1]));
    }
    assert(ex.to_set() =~= ex1.to_set() + ex2.to_set()) by {
        assert forall|l: Seq<u8>| #[trigger] ex.to_set().contains(l) implies (ex1.to_set()
            + ex2.to_set()).contains(l) by {
            let i = choose|i: int| 0 <= i < ex.len() && ex[i] == l;
            if i < ex1.len() {
                assert(ex1[i] == l);
                assert(ex1.to_set().contains(l));
            } else {
                assert(ex2[i - ex1.len()] == l);
                assert(ex2.to_set().contains(l));
            }
        }
        assert forall|l: Seq<u8>| (ex1.to_set() + ex2.to_set()).contains(l)
            implies #[trigger] ex.to_set().contains(l) by {
            if ex1.to_set().contains(l) {
                let i = choose|i: int| 0 <= i < ex1.len() && ex1[i] == l;
                assert(ex[i] == l);
            } else {
                let i = choose|i: int| 0 <= i < ex2.len() && ex2[i] == l;
                assert(ex[ex1.len() + i] == l);
            }
        }
    }
    assert(m2.alive_labels() =~= m.alive_labels().difference(ex.to_set()));
    assert(ex.to_set().subset_of(m.alive_labels()));
    assert forall|i: int, j: int| 0 <= i < j < ex.len() implies ex[i] != ex[j] by {
        if i < ex1.len() && j >= ex1.len() {
            assert(ex[i] == ex1[i]);
            assert(ex[j] == ex2[j - ex1.len()]);
            assert(!m1.alive_labels().contains(ex1[i]));
            assert(ex2.to_set().contains(ex2[j - ex1.len()]));
        } else if i >= ex1.len() {
            assert(ex[i] == ex2[i - ex1.len()]);
            assert(ex[j] == ex2[j - ex1.len()]);
        } else {
            assert(ex[i] == ex1[i]);
            assert(ex[j] == ex1[j]);
        }
    }
    assert forall|i: int| 0 <= i < ex.len() implies !m2.alive_labels().contains(
        #[trigger] ex[i],
    ) by {
        if i < ex1.len() {
            assert(ex[i] == ex1[i]);
            if m2.alive_labels().contains(ex1[i]) {
                assert(m1.alive_labels().contains(ex1[i]));
            }
        } else {
            assert(ex[i] == ex2[i - ex1.len()]);
        }
    }
}


/// A set flag anywhere makes the count positive.
pub proof fn lemma_count_alive_pos(s: Seq<bool>, t: int)
    requires
        0 <= t < s.len(),
        s[t],
    ensures
        count_alive(s) > 0,
    decreases s.len(),
{
    if t < s.len() - 1 {
        assert(s.drop_last()[t] == s[t]);
        lemma_count_alive_pos(s.drop_last(), t);
    }
}

/// Fewer set flags pointwise means a smaller count.
pub proof fn lemma_count_alive_mono(a: Seq<bool>, b: Seq<bool>)
    requires
        a.len() == b.len(),
        forall|t: int| 0 <= t < a.len() && #[trigger] b[t] ==> a[t],
    ensures
        count_alive(b) <= count_alive(a),
    decreases a.len(),
{
    if a.len() > 0 {
        assert(forall|t: int|
            0 <= t < a.len() - 1 ==> #[trigger] a.drop_last()[t] == a[t]);
        assert(forall|t: int|
            0 <= t < b.len() - 1 ==> #[trigger] b.drop_last()[t] == b[t]);
        lemma_count_alive_mono(a.drop_last(), b.drop_last());
    }
}

/// Removing one alive node removes exactly its label.
pub proof fn lemma_remove_node_ok(m: GraphModel, v: int)
    requires
        m.wf(),
        0 <= v < m.labels.len(),
        m.alive[v],
    ensures
        removal_ok(m, m.remove_node(v), seq![m.labels[v]]),
{
    broadcast use vstd::seq_lib::group_seq_properties;

    let mf = m.remove_node(v);
    let lv = m.labels[v];
    crate::graph::lemma_edges_without_props(m.edges, v);
    assert forall|k: int|
        #![trigger mf.edges[k]]
        0 <= k < mf.edges.len() implies m.edges.contains(mf.edges[k]) by {
        let e = mf.edges[k];
        let j = choose|j: int| 0 <= j < m.edges.len() && #[trigger] m.edges[j] == e;
        assert(m.edges[j] == e);
        assert(m.edges.contains(e));
    }
    assert forall|k: int| 0 <= k < mf.edges.len() implies mf.edge_ok(#[trigger] mf.edges[k]) by {
        let e = mf.edges[k];
        let j = choose|j: int| 0 <= j < m.edges.len() && m.edges[j] == e;
        assert(m.edge_ok(m.edges[j]));
        assert(mf.alive[e.a as int] == m.alive[e.a as int]);
        assert(mf.alive[e.b as int] == m.alive[e.b as int]);
    }
    assert(seq![lv].to_set() =~= Set::empty().insert(lv));
    assert(mf.alive_labels() =~= m.alive_labels().difference(seq![lv].to_set())) by {
        assert forall|l: Seq<u8>| #[trigger] mf.alive_labels().contains(l) implies
            m.alive_labels().contains(l) && l != lv by {
            let i = choose|i: int|
                0 <= i < mf.labels.len() && mf.alive[i] && #[trigger] mf.labels[i] == l;
            assert(i != v);
            assert(m.alive[i] && m.labels[i] == l);
            if l == lv {
                if i < v {
                    assert(m.labels[i] != m.labels[v]);
                } else {
                    assert(m.labels[v] != m.labels[i]);
                }
            }
        }
        assert forall|l: Seq<u8>| m.alive_labels().contains(l) && l != lv
            implies #[trigger] mf.alive_labels().contains(l) by {
            let i = choose|i: int|
                0 <= i < m.labels.len() && m.alive[i] && #[trigger] m.labels[i] == l;
            assert(i != v);
            assert(mf.alive[i] && mf.labels[i] == l);
        }
    }
    assert(m.alive_labels().contains(lv));
    assert(!mf.alive_labels().contains(lv));
}

/// Removing a list of nodes is a removal.
pub proof fn lemma_remove_list_ok(m: GraphModel, vs: Seq<int>)
    requires
        m.wf(),
    ensures
        removal_ok(m, remove_list(m, vs).0, remove_list(m, vs).1),
    decreases vs.len(),
{
    if vs.len() == 0 {
        lemma_removal_refl(m);
    } else {
        let v = vs[0];
        let hit = 0 <= v < m.labels.len() && m.alive[v];
        if hit {
            lemma_remove_node_ok(m, v);
            lemma_remove_list_ok(m.remove_node(v), vs.drop_first());
            lemma_removal_compose(
                m,
                m.remove_node(v),
                seq![m.labels[v]],
                remove_list(m.remove_node(v), vs.drop_first()).0,
                remove_list(m.remove_node(v), vs.drop_first()).1,
            );
        } else {
            lemma_removal_refl(m);
            lemma_remove_list_ok(m, vs.drop_first());
            lemma_removal_compose(
                m,
                m,
                Seq::empty(),
                remove_list(m, vs.drop_first()).0,
                remove_list(m, vs.drop_first()).1,
            );
            assert(Seq::<Seq<u8>>::empty() + remove_list(m, vs.drop_first()).1
                =~= remove_list(m, vs.drop_first()).1);
        }
    }
}

/// Eliminating one heavy node is a removal.
pub proof fn lemma_remove_one_ok(m: GraphModel, h: int, keep_heavy: bool)
    requires
        m.wf(),
    ensures
        removal_ok(m, spec_remove_one(m, h, keep_heavy).0, spec_remove_one(m, h, keep_heavy).1),
{
    if !(0 <= h < m.labels.len()) {
        lemma_removal_refl(m);
    } else if keep_heavy {
        lemma_remove_list_ok(m, adj_alive_upto(m, h, m.labels.len() as int));
    } else if m.alive[h] {
        lemma_remove_node_ok(m, h);
    } else {
        lemma_removal_refl(m);
    }
}

/// Eliminating every selected heavy node is a removal.
pub proof fn lemma_eliminate_ok(m: GraphModel, heavies: Seq<int>, keep_heavy: bool)
    requires
        m.wf(),
    ensures
        removal_ok(
            m,
            spec_eliminate(m, heavies, keep_heavy).0,
            spec_eliminate(m, heavies, keep_heavy).1,
        ),
    decreases heavies.len(),
{
    if heavies.len() == 0 {
        lemma_removal_refl(m);
    } else {
        let one = spec_remove_one(m, heavies[0], keep_heavy);
        lemma_remove_one_ok(m, heavies[0], keep_heavy);
        lemma_eliminate_ok(one.0, heavies.drop_first(), keep_heavy);
        let rest = spec_eliminate(one.0, heavies.drop_first(), keep_heavy);
        lemma_removal_compose(m, one.0, one.1, rest.0, rest.1);
    }
}

/// One pruning iteration is a removal.
pub proof fn lemma_step_ok(m: GraphModel, per_component: bool, keep_heavy: bool)
    requires
        m.wf(),
    ensures
        removal_ok(
            m,
            spec_step(m, per_component, keep_heavy).0,
            spec_step(m, per_component, keep_heavy).1,
        ),
{
    lemma_eliminate_ok(m, heavies_of(m, spec_cand_sets(m, per_component)), keep_heavy);
}

/// The whole pruning run is a removal: the surviving labels and the
/// removed labels partition the original alive labels, with no label
/// repeated or on both sides.
pub proof fn lemma_prune_ok(m: GraphModel, per_component: bool, keep_heavy: bool)
    requires
        m.wf(),
    ensures
        removal_ok(
            m,
            spec_prune(m, per_component, keep_heavy).0,
            spec_prune(m, per_component, keep_heavy).1,
        ),
    decreases m.alive_count(),
{
    if m.edges.len() == 0 {
        lemma_removal_refl(m);
    } else {
        let step = spec_step(m, per_component, keep_heavy);
        lemma_step_ok(m, per_component, keep_heavy);
        if step.0.alive_count() < m.alive_count() {
            lemma_prune_ok(step.0, per_component, keep_heavy);
            let rest = spec_prune(step.0, per_component, keep_heavy);
            lemma_removal_compose(m, step.0, step.1, rest.0, rest.1);
        }
    }
}


/// Appending a candidate set keeps the earlier multi-node sets and adds
/// the new one when it has more than one member.
pub proof fn lemma_multi_comps_push(sets: Seq<Seq<int>>, x: Seq<int>)
    ensures
        multi_comps(sets.push(x)) == multi_comps(sets) + if x.len() > 1 {
            seq![x]
        } else {
            Seq::<Seq<int>>::empty()
        },
    decreases sets.len(),
{
    if sets.len() == 0 {
        assert(sets.push(x).drop_first() =~= Seq::<Seq<int>>::empty());
        assert(sets.push(x)[0] == x);
        assert(multi_comps(Seq::<Seq<int>>::empty()) == Seq::<Seq<int>>::empty());
        assert(multi_comps(sets) == Seq::<Seq<int>>::empty());
        if x.len() > 1 {
            assert(multi_comps(sets.push(x)) =~= seq![x]);
            assert(multi_comps(sets) + seq![x] =~= seq![x]);
        } else {
            assert(multi_comps(sets.push(x)) =~= Seq::<Seq<int>>::empty());
            assert(multi_comps(sets) + Seq::<Seq<int>>::empty()
                =~= Seq::<Seq<int>>::empty());
        }
    } else {
        assert(sets.push(x).drop_first() =~= sets.drop_first().push(x));
        assert(sets.push(x)[0] == sets[0]);
        lemma_multi_comps_push(sets.drop_first(), x);
        if sets[0].len() > 1 {
            if x.len() > 1 {
                assert(seq![sets[0]] + (multi_comps(sets.drop_first()) + seq![x]) =~= (
                seq![sets[0]] + multi_comps(sets.drop_first())) + seq![x]);
            } else {
                assert(seq![sets[0]] + (multi_comps(sets.drop_first())
                    + Seq::<Seq<int>>::empty()) =~= (seq![sets[0]] + multi_comps(
                    sets.drop_first(),
                )) + Seq::<Seq<int>>::empty());
            }
        }
    }
}

/// Selecting over an extended list of sets appends the new selection.
pub proof fn lemma_heavies_of_push(m: GraphModel, sets: Seq<Seq<int>>, x: Seq<int>)
    ensures
        heavies_of(m, sets.push(x)) == heavies_of(m, sets) + if x.len() >= 1 {
            seq![spec_heaviest(m, x)]
        } else {
            Seq::<int>::empty()
        },
    decreases sets.len(),
{
    if sets.len() == 0 {
        assert(sets.push(x).drop_first() =~= Seq::<Seq<int>>::empty());
        assert(sets.push(x)[0] == x);
        assert(heavies_of(m, Seq::<Seq<int>>::empty()) == Seq::<int>::empty());
        if x.len() >= 1 {
            assert(heavies_of(m, sets.push(x)) =~= seq![spec_heaviest(m, x)]);
            assert(heavies_of(m, sets) + seq![spec_heaviest(m, x)] =~= seq![
                spec_heaviest(m, x),
            ]);
        } else {
            assert(heavies_of(m, sets.push(x)) =~= Seq::<int>::empty());
            assert(heavies_of(m, sets) + Seq::<int>::empty() =~= Seq::<int>::empty());
        }
    } else {
        assert(sets.push(x).drop_first() =~= sets.drop_first().push(x));
        assert(sets.push(x)[0] == sets[0]);
        lemma_heavies_of_push(m, sets.drop_first(), x);
        if sets[0].len() >= 1 {
            if x.len() >= 1 {
                assert(seq![spec_heaviest(m, sets[0])] + (heavies_of(m, sets.drop_first())
                    + seq![spec_heaviest(m, x)]) =~= (seq![spec_heaviest(m, sets[0])]
                    + heavies_of(m, sets.drop_first())) + seq![spec_heaviest(m, x)]);
            } else {
                assert(seq![spec_heaviest(m, sets[0])] + (heavies_of(m, sets.drop_first())
                    + Seq::<int>::empty()) =~= (seq![spec_heaviest(m, sets[0])] + heavies_of(
                    m,
                    sets.drop_first(),
                )) + Seq::<int>::empty());
            }
        }
    }
}

/// Whether nodes `u` and `h` share an edge.
fn is_adjacent_exec(g: &Graph, u: usize, h: usize) -> (r: bool)
    requires
        g.inv(),
    ensures
        r == g@.adjacent(u as int, h as int),
{
    let edges = g.edges_ref();
    let n_e = edges.len();
    let mut j: usize = 0;
    while j < n_e
        invariant
            j <= n_e,
            g.inv(),
            n_e == g@.edges.len(),
            edges@ == g@.edges,
            forall|k: int|
                0 <= k < j ==> {
                    let e = #[trigger] g@.edges[k];
                    !(e.a == u as int && e.b == h as int) && !(e.a == h as int && e.b
                        == u as int)
                },
        decreases n_e - j,
    {
        let e = edges[j];
        if (e.a == u && e.b == h) || (e.a == h && e.b == u) {
            proof {
                assert(g@.adjacent(u as int, h as int));
            }
            return true;
        }
        j = j + 1;
    }
    proof {
        if g@.adjacent(u as int, h as int) {
            let k = choose|k: int|
                0 <= k < g@.edges.len() && ((#[trigger] g@.edges[k]).a == u as int
                    && g@.edges[k].b == h as int || g@.edges[k].a == h as int && g@.edges[k].b
                    == u as int);
            assert(false);
        }
    }
    false
}

/// The alive neighbors of `h`, ascending.
fn collect_adj_alive(g: &Graph, h: usize) -> (r: Vec<usize>)
    requires
        g.inv(),
    ensures
        crate::graph::to_int_seq(r@) == adj_alive_upto(g@, h as int, g@.labels.len() as int),
        forall|k: int| 0 <= k < r@.len() ==> (#[trigger] r@[k] as int) < g@.labels.len(),
{
    let n = g.index_bound();
    let mut r: Vec<usize> = Vec::new();
    let mut u: usize = 0;
    proof {
        assert(crate::graph::to_int_seq(r@) =~= adj_alive_upto(g@, h as int, 0));
    }
    while u < n
        invariant
            u <= n,
            g.inv(),
            n == g@.labels.len(),
            crate::graph::to_int_seq(r@) == adj_alive_upto(g@, h as int, u as int),
            forall|k: int| 0 <= k < r@.len() ==> (#[trigger] r@[k] as int) < g@.labels.len(),
        decreases n - u,
    {
        if g.is_alive(u) && is_adjacent_exec(g, u, h) {
            r.push(u);
        }
        proof {
            assert(crate::graph::to_int_seq(r@) =~= adj_alive_upto(g@, h as int, u + 1));
        }
        u = u + 1;
    }
    r
}

/// Eliminates one selected heavy node under the policy, appending the
/// removed labels.
fn remove_one_exec(g: &mut Graph, excl: &mut Vec<String>, h: usize, keep_heavy: bool)
    requires
        old(g).inv(),
        (h as int) < old(g)@.labels.len(),
    ensures
        final(g).inv(),
        final(g)@ == spec_remove_one(old(g)@, h as int, keep_heavy).0,
        crate::rows::strings_bytes(final(excl)@) == crate::rows::strings_bytes(old(excl)@)
            + spec_remove_one(old(g)@, h as int, keep_heavy).1,
        final(g)@.labels == old(g)@.labels,
{
    let ghost m0 = g@;
    proof {
        g.lemma_inv_wf();
    }
    if keep_heavy {
        let nbrs = collect_adj_alive(g, h);
        let ghost vs = crate::graph::to_int_seq(nbrs@);
        let ghost ex0 = crate::rows::strings_bytes(excl@);
        let ghost mut pushed: Seq<Seq<u8>> = Seq::empty();
        let mut vi: usize = 0;
        proof {
            assert(vs.skip(0) =~= vs);
            assert(crate::rows::strings_bytes(excl@) =~= ex0 + pushed);
        }
        while vi < nbrs.len()
            invariant
                vi <= nbrs@.len(),
                g.inv(),
                vs == crate::graph::to_int_seq(nbrs@),
                forall|k: int|
                    0 <= k < nbrs@.len() ==> (#[trigger] nbrs@[k] as int) < g@.labels.len(),
                g@.labels == m0.labels,
                crate::rows::strings_bytes(excl@) == ex0 + pushed,
                remove_list(m0, vs).0 == remove_list(g@, vs.skip(vi as int)).0,
                remove_list(m0, vs).1 == pushed + remove_list(g@, vs.skip(vi as int)).1,
            decreases nbrs@.len() - vi,
        {
            let v = nbrs[vi];
            let ghost gv = g@;
            proof {
                assert(vs.skip(vi as int)[0] == vs[vi as int]);
                assert(vs[vi as int] == v as int);
                assert(vs.skip(vi as int).drop_first() =~= vs.skip(vi + 1));
            }
            if g.is_alive(v) {
                let lab = g.label_of(v);
                excl.push(lab);
                g.remove_node(v);
                proof {
                    let pushed0 = pushed;
                    assert(crate::rows::strings_bytes(excl@) =~= (ex0 + pushed0) + seq![
                        gv.labels[v as int],
                    ]);
                    pushed = pushed0 + seq![gv.labels[v as int]];
                    assert((ex0 + pushed0) + seq![gv.labels[v as int]] =~= ex0 + pushed);
                    assert(remove_list(gv, vs.skip(vi as int)).1 == seq![gv.labels[v as int]]
                        + remove_list(g@, vs.skip(vi + 1)).1);
                    assert((pushed0 + seq![gv.labels[v as int]]) + remove_list(
                        g@,
                        vs.skip(vi + 1),
                    ).1 =~= pushed0 + (seq![gv.labels[v as int]] + remove_list(
                        g@,
                        vs.skip(vi + 1),
                    ).1));
                    assert(remove_list(m0, vs).1 == pushed + remove_list(g@, vs.skip(vi + 1)).1);
                }
            } else {
                proof {
                    assert(remove_list(gv, vs.skip(vi as int)).1 == Seq::<Seq<u8>>::empty()
                        + remove_list(g@, vs.skip(vi + 1)).1);
                    assert(Seq::<Seq<u8>>::empty() + remove_list(g@, vs.skip(vi + 1)).1
                        =~= remove_list(g@, vs.skip(vi + 1)).1);
                }
            }
            vi = vi + 1;
        }
        proof {
            assert(vs.skip(nbrs@.len() as int) =~= Seq::<int>::empty());
            assert(remove_list(g@, Seq::<int>::empty()).0 == g@);
            assert(pushed + remove_list(g@, Seq::<int>::empty()).1 =~= pushed);
            assert(spec_remove_one(m0, h as int, keep_heavy) == remove_list(m0, vs));
            assert(crate::rows::strings_bytes(excl@) == ex0 + remove_list(m0, vs).1);
        }
    } else {
        if g.is_alive(h) {
            let lab = g.label_of(h);
            excl.push(lab);
            g.remove_node(h);
            proof {
                assert(crate::rows::strings_bytes(excl@) =~= crate::rows::strings_bytes(
                    old(excl)@,
                ) + seq![m0.labels[h as int]]);
            }
        } else {
            proof {
                assert(crate::rows::strings_bytes(excl@) =~= crate::rows::strings_bytes(
                    old(excl)@,
                ) + Seq::<Seq<u8>>::empty());
            }
        }
    }
}


/// One pruning iteration: selects the heaviest node of every candidate
/// set, then eliminates under the policy, appending the removed labels.
fn step_exec(g: &mut Graph, excl: &mut Vec<String>, per_component: bool, keep_heavy: bool)
    requires
        old(g).inv(),
        old(g)@.alive_count() > 0,
    ensures
        final(g).inv(),
        final(g)@ == spec_step(old(g)@, per_component, keep_heavy).0,
        crate::rows::strings_bytes(final(excl)@) == crate::rows::strings_bytes(old(excl)@)
            + spec_step(old(g)@, per_component, keep_heavy).1,
        final(g)@.alive_count() <= old(g)@.alive_count(),
{
    let ghost m0 = g@;
    proof {
        g.lemma_inv_wf();
    }
    let heavies: Vec<usize> = if per_component {
        let comps = crate::components::connected_components(g);
        let ghost csets = crate::components::comps_to_int(comps@);
        let mut hs: Vec<usize> = Vec::new();
        let mut ci: usize = 0;
        proof {
            assert(csets.take(0) =~= Seq::<Seq<int>>::empty());
            assert(multi_comps(Seq::<Seq<int>>::empty()) == Seq::<Seq<int>>::empty());
            assert(heavies_of(m0, Seq::<Seq<int>>::empty()) == Seq::<int>::empty());
            assert(crate::graph::to_int_seq(hs@) =~= heavies_of(
                m0,
                multi_comps(csets.take(0)),
            ));
        }
        while ci < comps.len()
            invariant
                ci <= comps@.len(),
                g.inv(),
                g@ == m0,
                csets == crate::components::comps_to_int(comps@),
                crate::graph::to_int_seq(hs@) == heavies_of(m0, multi_comps(csets.take(ci as int))),
                forall|i: int|
                    0 <= i < comps@.len() ==> forall|k: int|
                        0 <= k < (#[trigger] comps@[i])@.len() ==> ((#[trigger] comps@[i]@[k]) as int)
                            < g@.labels.len() && g@.alive[comps@[i]@[k] as int],
                forall|k: int| 0 <= k < hs@.len() ==> (#[trigger] hs@[k] as int) < m0.labels.len(),
            decreases comps@.len() - ci,
        {
            let ghost hs0 = crate::graph::to_int_seq(hs@);
            proof {
                assert(csets.take(ci + 1) =~= csets.take(ci as int).push(csets[ci as int]));
                lemma_multi_comps_push(csets.take(ci as int), csets[ci as int]);
                assert(csets[ci as int] == crate::graph::to_int_seq(comps@[ci as int]@));
            }
            let grp = &comps[ci];
            if grp.len() > 1 {
                proof {
                    assert(csets[ci as int].len() == comps@[ci as int]@.len());
                }
                let picked = crate::graph::find_heaviest_node(g, Some(grp));
                hs.push(picked.0);
                proof {
                    lemma_heavies_of_push(
                        m0,
                        multi_comps(csets.take(ci as int)),
                        csets[ci as int],
                    );
                    assert(multi_comps(csets.take(ci as int)) + seq![csets[ci as int]]
                        =~= multi_comps(csets.take(ci as int)).push(csets[ci as int]));
                    assert(crate::graph::to_int_seq(hs@) =~= hs0.push(picked.0 as int));
                    assert(hs0.push(picked.0 as int) =~= hs0 + seq![picked.0 as int]);
                    assert(picked.0 as int == spec_heaviest(m0, csets[ci as int]));
                    assert(crate::graph::to_int_seq(hs@) =~= heavies_of(
                        m0,
                        multi_comps(csets.take(ci + 1)),
                    ));
                }
            } else {
                proof {
                    lemma_heavies_of_push(
                        m0,
                        multi_comps(csets.take(ci as int)),
                        csets[ci as int],
                    );
                    assert(multi_comps(csets.take(ci + 1)) =~= multi_comps(
                        csets.take(ci as int),
                    ) + (if csets[ci as int].len() > 1 {
                        seq![csets[ci as int]]
                    } else {
                        Seq::<Seq<int>>::empty()
                    }));
                    assert(multi_comps(csets.take(ci + 1)) =~= multi_comps(csets.take(ci as int)));
                    assert(crate::graph::to_int_seq(hs@) == heavies_of(
                        m0,
                        multi_comps(csets.take(ci + 1)),
                    ));
                }
            }
            ci = ci + 1;
        }
        proof {
            assert(csets.take(comps@.len() as int) =~= csets);
            assert(crate::graph::to_int_seq(hs@) == heavies_of(
                m0,
                spec_cand_sets(m0, per_component),
            ));
        }
        hs
    } else {
        let picked = crate::graph::find_heaviest_node(g, None);
        let mut hs: Vec<usize> = Vec::new();
        hs.push(picked.0);
        proof {
            crate::graph::lemma_alive_upto_len(m0, m0.labels.len() as int);
            assert(m0.alive.take(m0.labels.len() as int) =~= m0.alive);
            assert(alive_indices(m0).len() > 0);
            assert(spec_cand_sets(m0, per_component) == seq![alive_indices(m0)]);
            assert(seq![alive_indices(m0)].drop_first() =~= Seq::<Seq<int>>::empty());
            assert(heavies_of(m0, Seq::<Seq<int>>::empty()) == Seq::<int>::empty());
            assert(seq![spec_heaviest(m0, alive_indices(m0))] + Seq::<int>::empty() =~= seq![
                spec_heaviest(m0, alive_indices(m0)),
            ]);
            assert(crate::graph::to_int_seq(hs@) =~= seq![picked.0 as int]);
            assert(crate::graph::to_int_seq(hs@) == heavies_of(
                m0,
                spec_cand_sets(m0, per_component),
            ));
        }
        hs
    };

    // Eliminate the selected nodes in order.
    let ghost full = crate::graph::to_int_seq(heavies@);
    let ghost ex0 = crate::rows::strings_bytes(excl@);
    let ghost mut pushed: Seq<Seq<u8>> = Seq::empty();
    let mut hi: usize = 0;
    proof {
        assert(full.skip(0) =~= full);
        assert(crate::rows::strings_bytes(excl@) =~= ex0 + pushed);
    }
    while hi < heavies.len()
        invariant
            hi <= heavies@.len(),
            g.inv(),
            full == crate::graph::to_int_seq(heavies@),
            forall|k: int| 0 <= k < heavies@.len() ==> (#[trigger] heavies@[k] as int) < g@.labels.len(),
            g@.labels == m0.labels,
            crate::rows::strings_bytes(excl@) == ex0 + pushed,
            spec_eliminate(m0, full, keep_heavy).0 == spec_eliminate(
                g@,
                full.skip(hi as int),
                keep_heavy,
            ).0,
            spec_eliminate(m0, full, keep_heavy).1 == pushed + spec_eliminate(
                g@,
                full.skip(hi as int),
                keep_heavy,
            ).1,
        decreases heavies@.len() - hi,
    {
        let h = heavies[hi];
        let ghost gv = g@;
        proof {
            assert(full.skip(hi as int)[0] == full[hi as int]);
            assert(full[hi as int] == h as int);
            assert(full.skip(hi as int).drop_first() =~= full.skip(hi + 1));
        }
        remove_one_exec(g, excl, h, keep_heavy);
        proof {
            let one = spec_remove_one(gv, h as int, keep_heavy);
            let pushed0 = pushed;
            assert(g@ == one.0);
            assert(crate::rows::strings_bytes(excl@) =~= (ex0 + pushed0) + one.1);
            pushed = pushed0 + one.1;
            assert((ex0 + pushed0) + one.1 =~= ex0 + pushed);
            assert(spec_eliminate(gv, full.skip(hi as int), keep_heavy).1 == one.1
                + spec_eliminate(g@, full.skip(hi + 1), keep_heavy).1);
            assert((pushed0 + one.1) + spec_eliminate(g@, full.skip(hi + 1), keep_heavy).1
                =~= pushed0 + (one.1 + spec_eliminate(g@, full.skip(hi + 1), keep_heavy).1));
        }
        hi = hi + 1;
    }
    proof {
        assert(full.skip(heavies@.len() as int) =~= Seq::<int>::empty());
        assert(spec_eliminate(g@, Seq::<int>::empty(), keep_heavy).0 == g@);
        assert(pushed + spec_eliminate(g@, Seq::<int>::empty(), keep_heavy).1 =~= pushed);
        assert(spec_step(m0, per_component, keep_heavy) == spec_eliminate(m0, full, keep_heavy));
        lemma_step_ok(m0, per_component, keep_heavy);
        g.lemma_inv_wf();
        lemma_count_alive_mono(m0.alive, g@.alive);
    }
}

/// Prunes until no edges remain: each iteration removes the heaviest node
/// of every candidate set, or, keeping heavy nodes, their neighbors.  The
/// removed labels are returned in removal order.  A graph with no nodes
/// is rejected before the loop starts.
pub fn prune(g: &mut Graph, mode: usize, keep_heavy: bool) -> (r: Result<Vec<String>, FatalError>)
    requires
        old(g).inv(),
    ensures
        final(g).inv(),
        match r {
            Err(e) => e == FatalError::EmptyGraph && old(g)@.alive_count() == 0 && final(g)@
                == old(g)@,
            Ok(excl) => {
                let ex = crate::rows::strings_bytes(excl@);
                &&& old(g)@.alive_count() > 0
                &&& final(g)@ == spec_prune(old(g)@, mode == 1, keep_heavy).0
                &&& ex == spec_prune(old(g)@, mode == 1, keep_heavy).1
                &&& (mode != 1 && !keep_heavy ==> final(g)@.edges.len() == 0)
                &&& (mode == 1 && !keep_heavy && (forall|k: int|
                    0 <= k < old(g)@.edges.len() ==> (#[trigger] old(g)@.edges[k]).a
                        != old(g)@.edges[k].b) ==> final(g)@.edges.len() == 0)
                &&& final(g)@.alive_labels().union(ex.to_set()) == old(g)@.alive_labels()
                &&& final(g)@.alive_labels().disjoint(ex.to_set())
                &&& (forall|i: int, j: int| 0 <= i < j < ex.len() ==> ex[i] != ex[j])
            },
        },
{
    let ghost m0 = g@;
    proof {
        g.lemma_inv_wf();
        if mode != 1 && !keep_heavy {
            lemma_prune_default_done(m0);
        }
        if mode == 1 && !keep_heavy && (forall|k: int|
            0 <= k < m0.edges.len() ==> (#[trigger] m0.edges[k]).a != m0.edges[k].b) {
            lemma_prune_per_component_done(m0);
        }
        lemma_prune_partition(m0, mode == 1, keep_heavy);
    }
    if g.node_count() == 0 {
        return Err(FatalError::EmptyGraph);
    }
    let per_component = mode == 1;
    let mut excl: Vec<String> = Vec::new();
    proof {
        assert(crate::rows::strings_bytes(excl@) =~= Seq::<Seq<u8>>::empty());
    }
    let ghost mut pushed: Seq<Seq<u8>> = Seq::empty();
    loop
        invariant_except_break
            g.inv(),
            crate::rows::strings_bytes(excl@) == pushed,
            spec_prune(m0, per_component, keep_heavy).0 == spec_prune(
                g@,
                per_component,
                keep_heavy,
            ).0,
            spec_prune(m0, per_component, keep_heavy).1 == pushed + spec_prune(
                g@,
                per_component,
                keep_heavy,
            ).1,
        ensures
            g.inv(),
            spec_prune(m0, per_component, keep_heavy).0 == g@,
            spec_prune(m0, per_component, keep_heavy).1 == crate::rows::strings_bytes(excl@),
        decreases g@.alive_count(),
    {
        let ghost gv = g@;
        if g.edge_count() == 0 {
            proof {
                assert(spec_prune(gv, per_component, keep_heavy).0 == gv);
                assert(pushed + spec_prune(gv, per_component, keep_heavy).1 =~= pushed);
            }
            break;
        }
        let before = g.node_count();
        proof {
            g.lemma_inv_wf();
            assert(gv.edge_ok(gv.edges[0]));
            lemma_count_alive_pos(gv.alive, gv.edges[0].a as int);
        }
        step_exec(g, &mut excl, per_component, keep_heavy);
        let after = g.node_count();
        let ghost pushed0 = pushed;
        proof {
            let step = spec_step(gv, per_component, keep_heavy);
            assert(g@ == step.0);
            pushed = pushed0 + step.1;
            assert(crate::rows::strings_bytes(excl@) =~= pushed);
        }
        if after >= before {
            proof {
                let step = spec_step(gv, per_component, keep_heavy);
                assert(spec_prune(gv, per_component, keep_heavy) == step);
                assert(pushed0 + step.1 =~= pushed);
                assert(spec_prune(m0, per_component, keep_heavy).0 == g@);
                assert(spec_prune(m0, per_component, keep_heavy).1 == pushed);
            }
            break;
        }
        proof {
            let step = spec_step(gv, per_component, keep_heavy);
            assert(spec_prune(gv, per_component, keep_heavy).0 == spec_prune(
                g@,
                per_component,
                keep_heavy,
            ).0);
            assert(spec_prune(gv, per_component, keep_heavy).1 == step.1 + spec_prune(
                g@,
                per_component,
                keep_heavy,
            ).1);
            assert((pushed0 + step.1) + spec_prune(g@, per_component, keep_heavy).1
                =~= pushed0 + (step.1 + spec_prune(g@, per_component, keep_heavy).1));
        }
    }
    Ok(excl)
}


/// The labels of the listed nodes, in order.
pub open spec fn labels_of(labels: Seq<Seq<u8>>, vs: Seq<int>) -> Seq<Seq<u8>>
    decreases vs.len(),
{
    if vs.len() == 0 {
        Seq::empty()
    } else {
        seq![labels[vs[0]]] + labels_of(labels, vs.drop_first())
    }
}

/// Removing a list of distinct alive nodes removes exactly those nodes,
/// and collects exactly their labels in order.
pub proof fn lemma_remove_list_exact(m: GraphModel, vs: Seq<int>)
    requires
        m.wf(),
        forall|k: int| 0 <= k < vs.len() ==> 0 <= #[trigger] vs[k] < m.labels.len(),
        forall|k: int| 0 <= k < vs.len() ==> m.alive[#[trigger] vs[k]],
        forall|i: int, j: int| 0 <= i < j < vs.len() ==> vs[i] != vs[j],
    ensures
        remove_list(m, vs).1 == labels_of(m.labels, vs),
        remove_list(m, vs).0.alive.len() == m.alive.len(),
        remove_list(m, vs).0.labels == m.labels,
        forall|t: int|
            0 <= t < m.alive.len() ==> (#[trigger] remove_list(m, vs).0.alive[t]) == (m.alive[t]
                && !vs.contains(t)),
    decreases vs.len(),
{
    broadcast use vstd::seq_lib::group_seq_properties;

    if vs.len() == 0 {
        assert(remove_list(m, vs) == (m, Seq::<Seq<u8>>::empty()));
        assert forall|t: int| 0 <= t < m.alive.len() implies remove_list(m, vs).0.alive[t] == (
        m.alive[t] && !vs.contains(t)) by {
            if vs.contains(t) {
                let k = choose|k: int| 0 <= k < vs.len() && #[trigger] vs[k] == t;
                assert(false);
            }
            assert(remove_list(m, vs).0.alive[t] == m.alive[t]);
        }
    } else {
        let v = vs[0];
        assert(0 <= v < m.labels.len() && m.alive[v]);
        let m1 = m.remove_node(v);
        lemma_remove_node_ok(m, v);
        let rest = vs.drop_first();
        assert forall|k: int| 0 <= k < rest.len() implies 0 <= #[trigger] rest[k]
            < m1.labels.len() && m1.alive[rest[k]] by {
            assert(rest[k] == vs[k + 1]);
            assert(vs[k + 1] != v);
        }
        assert forall|i: int, j: int| 0 <= i < j < rest.len() implies rest[i] != rest[j] by {
            assert(rest[i] == vs[i + 1] && rest[j] == vs[j + 1]);
        }
        lemma_remove_list_exact(m1, rest);
        assert(m1.labels == m.labels);
        assert(remove_list(m, vs).0 == remove_list(m1, rest).0);
        assert(remove_list(m, vs).1 == seq![m.labels[v]] + remove_list(m1, rest).1);
        assert(remove_list(m1, rest).1 == labels_of(m1.labels, rest));
        assert(remove_list(m, vs).1 =~= seq![m.labels[v]] + labels_of(m.labels, rest));
        assert(labels_of(m.labels, vs) == seq![m.labels[v]] + labels_of(m.labels, rest));
        assert forall|t: int| 0 <= t < m.alive.len() implies remove_list(m, vs).0.alive[t] == (
        m.alive[t] && !vs.contains(t)) by {
            assert(remove_list(m, vs).0 == remove_list(m1, rest).0);
            assert(remove_list(m1, rest).0.alive[t] == (m1.alive[t] && !rest.contains(t)));
            if t == v {
                assert(!m1.alive[t]);
                assert(vs.contains(t)) by {
                    assert(vs[0] == t);
                }
            } else {
                assert(m1.alive[t] == m.alive[t]);
                assert(vs.contains(t) == rest.contains(t)) by {
                    if vs.contains(t) {
                        let k = choose|k: int| 0 <= k < vs.len() && vs[k] == t;
                        assert(k != 0);
                        assert(rest[k - 1] == t);
                    }
                    if rest.contains(t) {
                        let k = choose|k: int| 0 <= k < rest.len() && rest[k] == t;
                        assert(vs[k + 1] == t);
                    }
                }
            }
        }
    }
}

/// The alive neighbor listing is strictly ascending, within bounds, and
/// lists exactly the alive nodes adjacent to `h`.
pub proof fn lemma_adj_alive_upto_props(m: GraphModel, h: int, n: int)
    requires
        0 <= n <= m.alive.len(),
    ensures
        forall|k: int|
            0 <= k < adj_alive_upto(m, h, n).len() ==> {
                let v = #[trigger] adj_alive_upto(m, h, n)[k];
                &&& 0 <= v < n
                &&& m.alive[v]
                &&& m.adjacent(v, h)
            },
        forall|i: int, j: int|
            0 <= i < j < adj_alive_upto(m, h, n).len() ==> adj_alive_upto(m, h, n)[i]
                < adj_alive_upto(m, h, n)[j],
        forall|v: int|
            0 <= v < n && m.alive[v] && m.adjacent(v, h) ==> adj_alive_upto(m, h, n).contains(v),
    decreases n,
{
    if n > 0 {
        lemma_adj_alive_upto_props(m, h, n - 1);
        let pre = adj_alive_upto(m, h, n - 1);
        assert forall|v: int|
            0 <= v < n && m.alive[v] && m.adjacent(v, h) implies adj_alive_upto(
            m,
            h,
            n,
        ).contains(v) by {
            if v < n - 1 {
                let k = choose|k: int| 0 <= k < pre.len() && #[trigger] pre[k] == v;
                assert(adj_alive_upto(m, h, n)[k] == v);
            } else {
                assert(adj_alive_upto(m, h, n)[adj_alive_upto(m, h, n).len() - 1] == v);
            }
        }
    }
}

/// The live edge count never grows across one iteration.
pub proof fn lemma_step_edges_nonincreasing(m: GraphModel, per_component: bool, keep_heavy: bool)
    requires
        m.wf(),
    ensures
        spec_step(m, per_component, keep_heavy).0.edges.len() <= m.edges.len(),
{
    lemma_step_ok(m, per_component, keep_heavy);
}

/// The surviving labels and the removed labels partition the original
/// alive labels: together they are exactly the original label set, no
/// label stands on both sides, and no side repeats a label.
pub proof fn lemma_prune_partition(m: GraphModel, per_component: bool, keep_heavy: bool)
    requires
        m.wf(),
    ensures
        ({
            let r = spec_prune(m, per_component, keep_heavy);
            &&& r.0.alive_labels().union(r.1.to_set()) == m.alive_labels()
            &&& r.0.alive_labels().disjoint(r.1.to_set())
            &&& forall|i: int, j: int| 0 <= i < j < r.1.len() ==> r.1[i] != r.1[j]
        }),
{
    lemma_prune_ok(m, per_component, keep_heavy);
    let r = spec_prune(m, per_component, keep_heavy);
    assert(r.0.alive_labels().union(r.1.to_set()) =~= m.alive_labels());
    assert(r.0.alive_labels().disjoint(r.1.to_set())) by {
        broadcast use vstd::seq_lib::group_seq_properties;

        assert forall|l: Seq<u8>|
            r.0.alive_labels().contains(l) implies !r.1.to_set().contains(l) by {
            if r.1.to_set().contains(l) {
                let i = choose|i: int| 0 <= i < r.1.len() && r.1[i] == l;
            }
        }
    }
}

/// Determinism: pruning is a mathematical function of the graph model and
/// the flags alone, so two runs over equal graphs with equal flags return
/// the same survivor set and the same removed labels, whatever the worker
/// count of the surrounding program.
pub proof fn lemma_prune_deterministic(
    m1: GraphModel,
    m2: GraphModel,
    per_component: bool,
    keep_heavy: bool,
)
    requires
        m1 == m2,
    ensures
        spec_prune(m1, per_component, keep_heavy) == spec_prune(m2, per_component, keep_heavy),
{
}

/// In global mode under the default policy, an iteration with edges left
/// always eliminates the selected heaviest node, and nothing else.
pub proof fn lemma_step_removes_heaviest(m: GraphModel)
    requires
        m.wf(),
        m.edges.len() > 0,
    ensures
        ({
            let h = spec_heaviest(m, alive_indices(m));
            &&& 0 <= h < m.labels.len()
            &&& m.alive[h]
            &&& spec_step(m, false, false) == (m.remove_node(h), seq![m.labels[h]])
            &&& spec_step(m, false, false).0.alive_count() < m.alive_count()
        }),
{
    assert(m.edge_ok(m.edges[0]));
    lemma_count_alive_pos(m.alive, m.edges[0].a as int);
    crate::graph::lemma_alive_upto_len(m, m.labels.len() as int);
    assert(m.alive.take(m.labels.len() as int) =~= m.alive);
    let cands = alive_indices(m);
    assert(cands.len() > 0);
    crate::graph::lemma_heaviest_max(m, cands);
    let h = spec_heaviest(m, cands);
    crate::graph::lemma_alive_upto_props(m, m.labels.len() as int);
    assert(0 <= h < m.labels.len() && m.alive[h]) by {
        let k = choose|k: int| 0 <= k < cands.len() && cands[k] == h;
    }
    assert(spec_cand_sets(m, false) == seq![cands]);
    assert(seq![cands].drop_first() =~= Seq::<Seq<int>>::empty());
    assert(heavies_of(m, Seq::<Seq<int>>::empty()) == Seq::<int>::empty());
    assert(heavies_of(m, seq![cands]) =~= seq![h]);
    let one = spec_remove_one(m, h, false);
    assert(one == (m.remove_node(h), seq![m.labels[h]]));
    assert(seq![h].drop_first() =~= Seq::<int>::empty());
    assert(spec_eliminate(one.0, Seq::<int>::empty(), false) == (one.0, Seq::<Seq<u8>>::empty()));
    assert(spec_step(m, false, false).0 == one.0);
    assert(one.1 + Seq::<Seq<u8>>::empty() =~= one.1);
    crate::graph::lemma_count_alive_update_false(m.alive, h);
}

/// In global mode under the default policy, pruning runs to completion:
/// no live edge remains.
pub proof fn lemma_prune_default_done(m: GraphModel)
    requires
        m.wf(),
    ensures
        spec_prune(m, false, false).0.edges.len() == 0,
    decreases m.alive_count(),
{
    if m.edges.len() > 0 {
        lemma_step_removes_heaviest(m);
        lemma_step_ok(m, false, false);
        lemma_prune_default_done(spec_step(m, false, false).0);
    }
}

/// In global mode with the keep-heavy policy, one iteration removes
/// exactly the current alive neighbors of the heaviest node, and the
/// heaviest node itself survives the iteration unless it carries a
/// self-loop.
#[verifier::rlimit(60)]
pub proof fn lemma_step_keep_heavy(m: GraphModel)
    requires
        m.wf(),
        m.edges.len() > 0,
    ensures
        ({
            let h = spec_heaviest(m, alive_indices(m));
            let nbrs = adj_alive_upto(m, h, m.labels.len() as int);
            &&& spec_step(m, false, true).1 == labels_of(m.labels, nbrs)
            &&& forall|t: int|
                0 <= t < m.alive.len() ==> spec_step(m, false, true).0.alive[t] == (m.alive[t]
                    && !nbrs.contains(t))
            &&& (!m.adjacent(h, h) && m.alive[h] ==> spec_step(m, false, true).0.alive[h])
        }),
{
    assert(m.edge_ok(m.edges[0]));
    lemma_count_alive_pos(m.alive, m.edges[0].a as int);
    crate::graph::lemma_alive_upto_len(m, m.labels.len() as int);
    assert(m.alive.take(m.labels.len() as int) =~= m.alive);
    let cands = alive_indices(m);
    assert(cands.len() > 0);
    crate::graph::lemma_heaviest_max(m, cands);
    let h = spec_heaviest(m, cands);
    crate::graph::lemma_alive_upto_props(m, m.labels.len() as int);
    assert(0 <= h < m.labels.len()) by {
        let k = choose|k: int| 0 <= k < cands.len() && cands[k] == h;
    }
    assert(spec_cand_sets(m, false) == seq![cands]);
    assert(seq![cands].drop_first() =~= Seq::<Seq<int>>::empty());
    assert(heavies_of(m, Seq::<Seq<int>>::empty()) == Seq::<int>::empty());
    assert(heavies_of(m, seq![cands]) =~= seq![h]);
    let nbrs = adj_alive_upto(m, h, m.labels.len() as int);
    lemma_adj_alive_upto_props(m, h, m.labels.len() as int);
    let one = spec_remove_one(m, h, true);
    assert(one == remove_list(m, nbrs));
    lemma_remove_list_exact(m, nbrs);
    assert(seq![h].drop_first() =~= Seq::<int>::empty());
    assert(spec_eliminate(one.0, Seq::<int>::empty(), true) == (one.0, Seq::<Seq<u8>>::empty()));
    assert(spec_step(m, false, true).0 == one.0);
    assert(one.1 + Seq::<Seq<u8>>::empty() =~= one.1);
    assert(spec_step(m, false, true).0 == remove_list(m, nbrs).0);
    assert(spec_step(m, false, true).1 == one.1);
    assert(one.1 == labels_of(m.labels, nbrs));
    assert forall|t: int| 0 <= t < m.alive.len() implies spec_step(m, false, true).0.alive[t] == (
    m.alive[t] && !nbrs.contains(t)) by {
        assert(remove_list(m, nbrs).0.alive[t] == (m.alive[t] && !nbrs.contains(t)));
    }
    if !m.adjacent(h, h) && m.alive[h] {
        if nbrs.contains(h) {
            let k = choose|k: int| 0 <= k < nbrs.len() && #[trigger] nbrs[k] == h;
            assert(m.adjacent(h, h));
        }
        assert(spec_step(m, false, true).0.alive[h]);
    }
}


/// Every filtered candidate set is one of the listed sets and has more
/// than one member; and some multi-node set survives the filter when one
/// exists.
pub proof fn lemma_multi_comps_props(sets: Seq<Seq<int>>)
    ensures
        forall|k: int|
            #![trigger multi_comps(sets)[k]]
            0 <= k < multi_comps(sets).len() ==> multi_comps(sets)[k].len() > 1 && sets.contains(
                multi_comps(sets)[k],
            ),
        (exists|i: int| 0 <= i < sets.len() && (#[trigger] sets[i]).len() > 1) ==> multi_comps(
            sets,
        ).len() >= 1,
    decreases sets.len(),
{
    broadcast use vstd::seq_lib::group_seq_properties;

    if sets.len() > 0 {
        lemma_multi_comps_props(sets.drop_first());
        let rest = multi_comps(sets.drop_first());
        assert forall|k: int|
            #![trigger multi_comps(sets)[k]]
            0 <= k < multi_comps(sets).len() implies multi_comps(sets)[k].len() > 1
            && sets.contains(multi_comps(sets)[k]) by {
            let cur = multi_comps(sets);
            if sets[0].len() > 1 && k == 0 {
                assert(cur[0] == sets[0]);
                assert(sets.contains(sets[0]));
            } else {
                let kr = if sets[0].len() > 1 {
                    k - 1
                } else {
                    k
                };
                assert(cur[k] == rest[kr]);
                assert(sets.drop_first().contains(rest[kr]));
                let j = choose|j: int|
                    0 <= j < sets.drop_first().len() && #[trigger] sets.drop_first()[j]
                        == rest[kr];
                assert(sets[j + 1] == rest[kr]);
                assert(sets.contains(rest[kr]));
            }
        }
        if exists|i: int| 0 <= i < sets.len() && (#[trigger] sets[i]).len() > 1 {
            let i = choose|i: int| 0 <= i < sets.len() && (#[trigger] sets[i]).len() > 1;
            if i == 0 {
                assert(multi_comps(sets).len() >= 1);
            } else {
                assert(sets.drop_first()[i - 1] == sets[i]);
                assert(rest.len() >= 1);
            }
        }
    }
}

/// In per-component mode under the default policy, an iteration of a
/// graph with an edge between two distinct nodes eliminates at least one
/// node.
#[verifier::rlimit(60)]
pub proof fn lemma_step_per_component_progress(m: GraphModel)
    requires
        m.wf(),
        m.edges.len() > 0,
        forall|k: int| 0 <= k < m.edges.len() ==> (#[trigger] m.edges[k]).a != m.edges[k].b,
    ensures
        spec_step(m, true, false).0.alive_count() < m.alive_count(),
{
    broadcast use vstd::seq_lib::group_seq_properties;

    let cs = crate::components::spec_components(m);
    crate::components::lemma_components_partition(m);
    let e0 = m.edges[0];
    assert(m.edge_ok(e0));
    let a = e0.a as int;
    let b = e0.b as int;
    let gi = choose|gi: int| #[trigger] crate::components::in_group(cs, gi, a);
    assert(crate::components::in_group(cs, gi, b));
    assert(cs[gi].len() >= 2) by {
        let k1 = choose|k1: int| 0 <= k1 < cs[gi].len() && #[trigger] cs[gi][k1] == a;
        let k2 = choose|k2: int| 0 <= k2 < cs[gi].len() && #[trigger] cs[gi][k2] == b;
        assert(k1 != k2);
    }
    lemma_multi_comps_props(cs);
    let sets = multi_comps(cs);
    assert(sets.len() >= 1) by {
        assert(0 <= gi < cs.len() && (cs[gi]).len() > 1);
    }
    let s0 = sets[0];
    assert(s0.len() > 1 && cs.contains(s0));
    let i0 = choose|i0: int| 0 <= i0 < cs.len() && #[trigger] cs[i0] == s0;
    let h0 = spec_heaviest(m, s0);
    crate::graph::lemma_heaviest_max(m, s0);
    assert(s0.contains(h0));
    assert(crate::components::in_group(cs, i0, h0));
    assert(0 <= h0 < m.labels.len() && m.alive[h0]);
    let heavies = heavies_of(m, sets);
    assert(heavies == seq![h0] + heavies_of(m, sets.drop_first()));
    assert(heavies[0] == h0);
    assert(heavies.len() >= 1);
    let one = spec_remove_one(m, h0, false);
    assert(one.0 == m.remove_node(h0));
    crate::graph::lemma_count_alive_update_false(m.alive, h0);
    assert(one.0.alive_count() == m.alive_count() - 1);
    lemma_remove_node_ok(m, h0);
    lemma_eliminate_ok(one.0, heavies.drop_first(), false);
    let rest = spec_eliminate(one.0, heavies.drop_first(), false);
    lemma_count_alive_mono(one.0.alive, rest.0.alive);
    assert(spec_step(m, true, false).0 == rest.0);
}

/// In per-component mode under the default policy, pruning a graph with
/// no self-loops runs to completion: no live edge remains.
pub proof fn lemma_prune_per_component_done(m: GraphModel)
    requires
        m.wf(),
        forall|k: int| 0 <= k < m.edges.len() ==> (#[trigger] m.edges[k]).a != m.edges[k].b,
    ensures
        spec_prune(m, true, false).0.edges.len() == 0,
    decreases m.alive_count(),
{
    broadcast use vstd::seq_lib::group_seq_properties;

    if m.edges.len() > 0 {
        lemma_step_per_component_progress(m);
        lemma_step_ok(m, true, false);
        let step = spec_step(m, true, false);
        assert forall|k: int|
            0 <= k < step.0.edges.len() implies (#[trigger] step.0.edges[k]).a
            != step.0.edges[k].b by {
            assert(m.edges.contains(step.0.edges[k]));
            let j = choose|j: int|
                0 <= j < m.edges.len() && #[trigger] m.edges[j] == step.0.edges[k];
        }
        lemma_prune_per_component_done(step.0);
    }
}

} // verus!
