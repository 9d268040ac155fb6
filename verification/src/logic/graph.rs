//! Data structure for understanding and maintaining the relationships between categories.
//!
//! Vertices are category identifiers; an edge runs from a parent to a child.

use crate::logic::reach::{
    acyclic, adjacency, ancestors, ancestors_of, copy_set, descendants, descendants_of, edge,
    is_path, lemma_edge_reaches, lemma_reaches_or_same_trans, lemma_reaches_then_edge,
    lemma_reaches_trans, parents, path_step, reaches, reaches_or_same, set_elements, vertex_list,
    walk,
};
use std::collections::HashMap;
use std::collections::HashSet;
use vstd::prelude::*;

verus! {

broadcast use vstd::std_specs::hash::group_hash_axioms;

/// Parent/child relations between vertices, kept free of cycles by `insert_edge`.
#[derive(Debug)]
pub struct DirectedAcyclicGraph {
    graph: HashMap<i64, HashSet<i64>>,
}

/// Why an edge was refused.
#[derive(Debug, Clone, Copy, PartialEq, Eq)]
pub enum GraphError {
    EdgeEndpointNotInGraph,
    WouldIntroduceCycle,
}

/// What removing a vertex does to the edges around it: every parent of the
/// removed vertex adopts each of its children.
#[derive(Debug)]
pub struct GraphPatch {
    pub to_remove: i64,
    pub parents: Option<Vec<i64>>,
    pub children: Option<Vec<i64>>,
}

/// The graph left after removing `v`: every parent of `v` adopts the children of `v`.
pub open spec fn bypass(g: Map<i64, Set<i64>>, v: i64) -> Map<i64, Set<i64>> {
    Map::new(
        |k: i64| g.contains_key(k) && k != v,
        |k: i64|
            if g[k].contains(v) {
                g[k].remove(v).union(g[v])
            } else {
                g[k]
            },
    )
}

/// The edges that `bypass(g, v)` adds: from each parent of `v` to each child of `v`.
pub open spec fn bypass_edges(g: Map<i64, Set<i64>>, v: i64) -> Set<(i64, i64)> {
    Set::new(
        |e: (i64, i64)| g.contains_key(e.0) && e.0 != v && g[e.0].contains(v) && g[v].contains(e.1),
    )
}

/// The vertices that may become children of `s` without closing a cycle and
/// that are not children of it already.
pub open spec fn non_cyclic_additions(g: Map<i64, Set<i64>>, s: i64) -> Set<i64> {
    Set::new(
        |k: i64| g.contains_key(k) && k != s && !reaches(g, k, s) && !g[s].contains(k),
    )
}

/// The graph with the edge `p -> c` added.
pub open spec fn with_edge(g: Map<i64, Set<i64>>, p: i64, c: i64) -> Map<i64, Set<i64>> {
    g.insert(p, g[p].insert(c))
}

/// A walk in `with_edge(g, p, c)` either stays in `g` or passes from `p` to `c`,
/// given that `c` does not lead back to `p` in `g`.
proof fn lemma_walk_with_edge(g: Map<i64, Set<i64>>, p: i64, c: i64, q: Seq<i64>)
    requires
        g.contains_key(p),
        !reaches_or_same(g, c, p),
        is_path(with_edge(g, p, c), q),
        q.len() >= 2,
    ensures
        reaches(g, q[0], q[q.len() - 1]) || (reaches_or_same(g, q[0], p) && reaches_or_same(
            g,
            c,
            q[q.len() - 1],
        )),
    decreases q.len(),
{
    let h = with_edge(g, p, c);
    let n = q.len();
    let a = q[0];
    let b = q[n - 1];
    let b1 = q[n - 2];
    assert(path_step(h, q, n - 2));
    if n == 2 {
        if edge(g, a, b) {
            lemma_edge_reaches(g, a, b);
        }
    } else {
        let q1 = q.drop_last();
        assert forall|i: int| 0 <= i < q1.len() - 1 implies #[trigger] path_step(h, q1, i) by {
            assert(path_step(h, q, i));
        }
        lemma_walk_with_edge(g, p, c, q1);
        assert(q1[q1.len() - 1] == b1);
        if edge(g, b1, b) {
            if reaches(g, a, b1) {
                lemma_reaches_then_edge(g, a, b1, b);
            } else {
                if c == b1 {
                    lemma_edge_reaches(g, b1, b);
                } else {
                    lemma_reaches_then_edge(g, c, b1, b);
                }
            }
        } else {
            assert(b1 == p && b == c);
            if !reaches(g, a, b1) {
                lemma_reaches_or_same_trans(g, c, b1, p);
            }
        }
    }
}

/// Adding an edge that `insert_edge` accepts keeps an acyclic graph acyclic.
pub proof fn law_insert_edge_keeps_acyclic(g: Map<i64, Set<i64>>, parent: i64, child: i64)
    requires
        acyclic(g),
        g.contains_key(parent),
        g.contains_key(child),
        !reaches_or_same(g, child, parent),
    ensures
        acyclic(with_edge(g, parent, child)),
{
    let h = with_edge(g, parent, child);
    assert forall|w: i64| !#[trigger] reaches(h, w, w) by {
        if reaches(h, w, w) {
            let q = choose|q: Seq<i64>| #[trigger] walk(h, q, w, w);
            lemma_walk_with_edge(g, parent, child, q);
            if !reaches(g, w, w) {
                lemma_reaches_or_same_trans(g, child, w, parent);
            }
        }
    }
}

/// Every walk in `bypass(g, v)` corresponds to a walk in `g`.
proof fn lemma_bypass_walk(g: Map<i64, Set<i64>>, v: i64, q: Seq<i64>)
    requires
        g.contains_key(v),
        is_path(bypass(g, v), q),
        q.len() >= 2,
    ensures
        reaches(g, q[0], q[q.len() - 1]),
    decreases q.len(),
{
    let h = bypass(g, v);
    let n = q.len();
    let b1 = q[n - 2];
    let b = q[n - 1];
    assert(path_step(h, q, n - 2));
    if g[b1].contains(v) && !g[b1].contains(b) {
        lemma_edge_reaches(g, b1, v);
        lemma_reaches_then_edge(g, b1, v, b);
    } else {
        lemma_edge_reaches(g, b1, b);
    }
    if n > 2 {
        let q1 = q.drop_last();
        assert forall|i: int| 0 <= i < q1.len() - 1 implies #[trigger] path_step(h, q1, i) by {
            assert(path_step(h, q, i));
        }
        lemma_bypass_walk(g, v, q1);
        lemma_reaches_trans(g, q[0], b1, b);
    }
}

/// Removing a vertex adds no reachability that was not there before.
pub proof fn law_remove_adds_no_reachability(g: Map<i64, Set<i64>>, v: i64, a: i64, b: i64)
    requires
        g.contains_key(v),
        reaches(bypass(g, v), a, b),
    ensures
        reaches(g, a, b),
{
    let q = choose|q: Seq<i64>| #[trigger] walk(bypass(g, v), q, a, b);
    lemma_bypass_walk(g, v, q);
}

/// Removing a vertex from an acyclic graph leaves it acyclic.
pub proof fn law_remove_keeps_acyclic(g: Map<i64, Set<i64>>, v: i64)
    requires
        g.contains_key(v),
        acyclic(g),
    ensures
        acyclic(bypass(g, v)),
{
    assert forall|w: i64| !#[trigger] reaches(bypass(g, v), w, w) by {
        if reaches(bypass(g, v), w, w) {
            law_remove_adds_no_reachability(g, v, w, w);
        }
    }
}

/// The last position before `i` whose vertex is not `v` (0 when there is none).
spec fn prev_other(q: Seq<i64>, v: i64, i: int) -> int
    decreases i,
{
    if i <= 1 {
        0
    } else if q[i - 1] != v {
        i - 1
    } else {
        prev_other(q, v, i - 1)
    }
}

proof fn lemma_prev_other(q: Seq<i64>, v: i64, i: int)
    requires
        1 <= i < q.len(),
        q[0] != v,
    ensures
        0 <= prev_other(q, v, i) < i,
        q[prev_other(q, v, i)] != v,
        forall|k: int| prev_other(q, v, i) < k < i ==> q[k] == v,
    decreases i,
{
    if i > 1 && q[i - 1] == v {
        lemma_prev_other(q, v, i - 1);
    }
}

proof fn lemma_walk_survives_bypass(g: Map<i64, Set<i64>>, v: i64, q: Seq<i64>, i: int)
    requires
        is_path(g, q),
        q[0] != v,
        1 <= i < q.len(),
        q[i] != v,
    ensures
        reaches(bypass(g, v), q[0], q[i]),
    decreases i,
{
    let h = bypass(g, v);
    let j = prev_other(q, v, i);
    lemma_prev_other(q, v, i);
    let x = q[j];
    let y = q[i];
    assert(path_step(g, q, j));
    assert(path_step(g, q, i - 1));
    if j == i - 1 {
        assert(edge(h, x, y));
    } else {
        assert(q[j + 1] == v);
        assert(q[i - 1] == v);
        assert(edge(h, x, y));
    }
    lemma_edge_reaches(h, x, y);
    if j > 0 {
        lemma_walk_survives_bypass(g, v, q, j);
        lemma_reaches_trans(h, q[0], x, y);
    }
}

/// Removing a vertex keeps every other vertex reachable from where it was
/// reachable before: the parents of the removed vertex adopt its children.
pub proof fn law_remove_keeps_reachability(g: Map<i64, Set<i64>>, v: i64, a: i64, b: i64)
    requires
        reaches(g, a, b),
        a != v,
        b != v,
    ensures
        reaches(bypass(g, v), a, b),
{
    let q = choose|q: Seq<i64>| #[trigger] walk(g, q, a, b);
    lemma_walk_survives_bypass(g, v, q, q.len() - 1);
}

/// Walks along edges that are all edges of `g` stay walks of `g`.
proof fn lemma_subgraph_reaches(h: Map<i64, Set<i64>>, g: Map<i64, Set<i64>>, a: i64, b: i64)
    requires
        forall|x: i64, y: i64| edge(h, x, y) ==> edge(g, x, y),
        reaches(h, a, b),
    ensures
        reaches(g, a, b),
{
    let q = choose|q: Seq<i64>| #[trigger] walk(h, q, a, b);
    assert forall|i: int| 0 <= i < q.len() - 1 implies #[trigger] path_step(g, q, i) by {
        assert(path_step(h, q, i));
    }
    assert(walk(g, q, a, b));
}

/// Adding a vertex without edges keeps an acyclic graph acyclic.
pub proof fn law_insert_vertex_keeps_acyclic(g: Map<i64, Set<i64>>, v: i64)
    requires
        acyclic(g),
    ensures
        acyclic(if g.contains_key(v) { g } else { g.insert(v, Set::empty()) }),
{
    let h = if g.contains_key(v) { g } else { g.insert(v, Set::empty()) };
    assert forall|w: i64| !#[trigger] reaches(h, w, w) by {
        if reaches(h, w, w) {
            lemma_subgraph_reaches(h, g, w, w);
        }
    }
}

/// Dropping an edge keeps an acyclic graph acyclic.
pub proof fn law_remove_edge_keeps_acyclic(g: Map<i64, Set<i64>>, parent: i64, child: i64)
    requires
        acyclic(g),
    ensures
        acyclic(if g.contains_key(parent) { g.insert(parent, g[parent].remove(child)) } else { g }),
{
    let h = if g.contains_key(parent) { g.insert(parent, g[parent].remove(child)) } else { g };
    assert forall|w: i64| !#[trigger] reaches(h, w, w) by {
        if reaches(h, w, w) {
            lemma_subgraph_reaches(h, g, w, w);
        }
    }
}

/// Dropping the edge `parent -> child` leaves `child` unreachable from `parent`
/// when that edge was the only way down, as in a tree.
pub proof fn law_remove_edge_cuts_only_path(g: Map<i64, Set<i64>>, parent: i64, child: i64)
    requires
        g.contains_key(parent),
        forall|a: i64| #[trigger] edge(g, a, child) ==> a == parent,
        acyclic(g),
    ensures
        !reaches(g.insert(parent, g[parent].remove(child)), parent, child),
{
    let h = g.insert(parent, g[parent].remove(child));
    if reaches(h, parent, child) {
        let q = choose|q: Seq<i64>| #[trigger] walk(h, q, parent, child);
        let n = q.len();
        assert(path_step(h, q, n - 2));
        let b1 = q[n - 2];
        assert(edge(g, b1, child));
        assert(b1 == parent);
        assert(n > 2);
        let q1 = q.drop_last();
        assert forall|i: int| 0 <= i < q1.len() - 1 implies #[trigger] path_step(h, q1, i) by {
            assert(path_step(h, q, i));
        }
        assert(walk(h, q1, parent, parent));
        lemma_subgraph_reaches(h, g, parent, parent);
    }
}

impl View for DirectedAcyclicGraph {
    type V = Map<i64, Set<i64>>;

    closed spec fn view(&self) -> Map<i64, Set<i64>> {
        adjacency(self.graph@)
    }
}

impl DirectedAcyclicGraph {
    /// An empty graph.
    pub fn _new() -> (r: Self)
        ensures
            r@ == Map::<i64, Set<i64>>::empty(),
    {
        let r = Self { graph: HashMap::new() };
        proof {
            assert(r@ =~= Map::<i64, Set<i64>>::empty());
        }
        r
    }

    /// A graph with the given adjacency, as read back from storage.
    pub fn load(graph: HashMap<i64, HashSet<i64>>) -> (r: Self)
        ensures
            r@ == adjacency(graph@),
    {
        Self { graph }
    }

    /// Adds `vertex` without edges, unless it is present already.
    pub fn insert_vertex(&mut self, vertex: i64)
        ensures
            final(self)@ == if old(self)@.contains_key(vertex) {
                old(self)@
            } else {
                old(self)@.insert(vertex, Set::empty())
            },
    {
        if !self.graph.contains_key(&vertex) {
            self.graph.insert(vertex, HashSet::new());
            proof {
                assert(self@ =~= old(self)@.insert(vertex, Set::empty()));
            }
        }
    }

    pub fn contains_vertex(&self, vertex: &i64) -> (r: bool)
        ensures
            r == self@.contains_key(*vertex),
    {
        self.graph.contains_key(vertex)
    }

    /// Adds the edge `parent -> child`. Refused when an endpoint is missing, and
    /// when `child` is `parent` or reaches it, since the edge would close a cycle.
    pub fn insert_edge(&mut self, parent: &i64, child: &i64) -> (r: Result<(), GraphError>)
        ensures
            match r {
                Err(GraphError::EdgeEndpointNotInGraph) => {
                    &&& !(old(self)@.contains_key(*parent) && old(self)@.contains_key(*child))
                    &&& final(self)@ == old(self)@
                },
                Err(GraphError::WouldIntroduceCycle) => {
                    &&& old(self)@.contains_key(*parent)
                    &&& old(self)@.contains_key(*child)
                    &&& reaches_or_same(old(self)@, *child, *parent)
                    &&& final(self)@ == old(self)@
                },
                Ok(()) => {
                    &&& old(self)@.contains_key(*parent)
                    &&& old(self)@.contains_key(*child)
                    &&& !reaches_or_same(old(self)@, *child, *parent)
                    &&& final(self)@ == old(self)@.insert(
                        *parent,
                        old(self)@[*parent].insert(*child),
                    )
                },
            },
    {
        if !(self.contains_vertex(parent) && self.contains_vertex(child)) {
            return Err(GraphError::EdgeEndpointNotInGraph);
        }
        if self.is_parent_of(child, parent) {
            return Err(GraphError::WouldIntroduceCycle);
        }
        let mut set = self.graph.remove(parent).unwrap();
        set.insert(*child);
        self.graph.insert(*parent, set);
        proof {
            assert(self@ =~= old(self)@.insert(*parent, old(self)@[*parent].insert(*child)));
        }
        Ok(())
    }

    /// A copy of the children of `vertex`, or `None` when it is not in the graph.
    pub fn get_edges(&self, vertex: &i64) -> (r: Option<HashSet<i64>>)
        ensures
            match r {
                Some(set) => self@.contains_key(*vertex) && set@ == self@[*vertex],
                None => !self@.contains_key(*vertex),
            },
    {
        match self.graph.get(vertex) {
            Some(set) => Some(copy_set(set)),
            None => None,
        }
    }

    /// Removes `vertex`; each of its parents adopts its children. Returns the
    /// adopted edges, or `None` when `vertex` is not in the graph.
    pub fn remove(&mut self, vertex: i64) -> (r: Option<Vec<(i64, i64)>>)
        ensures
            match r {
                Some(edges) => {
                    &&& old(self)@.contains_key(vertex)
                    &&& final(self)@ == bypass(old(self)@, vertex)
                    &&& edges@.to_set() == bypass_edges(old(self)@, vertex)
                    &&& edges@.no_duplicates()
                },
                None => !old(self)@.contains_key(vertex) && final(self)@ == old(self)@,
            },
    {
        let ghost g = self@;
        let removed = self.graph.remove(&vertex);
        let child_set = match removed {
            Some(set) => set,
            None => {
                proof {
                    assert(self@ =~= old(self)@);
                }
                return None;
            },
        };
        let children = set_elements(&child_set);
        let keys = vertex_list(&self.graph);
        let mut new_edges: Vec<(i64, i64)> = Vec::new();
        let n = keys.len();
        let mut j: usize = 0;
        while j < n
            invariant
                g.contains_key(vertex),
                children@.to_set() == g[vertex],
                children@.no_duplicates(),
                n == keys@.len(),
                j <= n,
                keys@.no_duplicates(),
                keys@.to_set() == g.dom().remove(vertex),
                self.graph@.dom() == g.dom().remove(vertex),
                forall|k: i64|
                    #[trigger] self@.contains_key(k) ==> self@[k] == if keys@.take(
                        j as int,
                    ).contains(k) {
                        bypass(g, vertex)[k]
                    } else {
                        g[k]
                    },
                new_edges@.no_duplicates(),
                new_edges@.to_set() == bypass_edges(g, vertex).filter(
                    |e: (i64, i64)| keys@.take(j as int).contains(e.0),
                ),
            decreases n - j,
        {
            let k = keys[j];
            let ghost pre = self@;
            proof {
                assert(keys@.to_set().contains(k));
                assert(!keys@.take(j as int).contains(k)) by {
                    if keys@.take(j as int).contains(k) {
                        let i = choose|i: int| 0 <= i < j && keys@.take(j as int)[i] == k;
                        assert(keys@[i] == k);
                    }
                }
                assert(pre.contains_key(k));
                assert(pre[k] == g[k]);
            }
            let mut set = self.graph.remove(&k).unwrap();
            let ghost before = set@;
            proof {
                assert(before == g[k]);
            }
            let ghost edges_before = new_edges@;
            if set.remove(&vertex) {
                let m = children.len();
                let mut i: usize = 0;
                while i < m
                    invariant
                        m == children@.len(),
                        i <= m,
                        children@.no_duplicates(),
                        set@ == before.remove(vertex).union(children@.take(i as int).to_set()),
                        new_edges@ == edges_before + children@.take(i as int).map_values(
                            |c: i64| (k, c),
                        ),
                    decreases m - i,
                {
                    proof {
                        assert(children@.take(i + 1) == children@.take(i as int).push(
                            children@[i as int],
                        ));
                        children@.take(i as int).lemma_push_to_set_commute(children@[i as int]);
                    }
                    set.insert(children[i]);
                    new_edges.push((k, children[i]));
                    proof {
                        assert(new_edges@ =~= edges_before + children@.take(i + 1).map_values(
                            |c: i64| (k, c),
                        ));
                    }
                    i = i + 1;
                }
                proof {
                    assert(children@.take(m as int) == children@);
                }
            }
            self.graph.insert(k, set);
            proof {
                let t0 = keys@.take(j as int);
                let t1 = keys@.take(j + 1);
                assert(t1 == t0.push(k));
                assert forall|z: i64| t1.contains(z) <==> (t0.contains(z) || z == k) by {
                    if t1.contains(z) {
                        let i = choose|i: int| 0 <= i < t1.len() && t1[i] == z;
                        if i < j {
                            assert(t0[i] == z);
                        }
                    }
                    if t0.contains(z) {
                        let i = choose|i: int| 0 <= i < t0.len() && t0[i] == z;
                        assert(t1[i] == z);
                    }
                    assert(t1[j as int] == k);
                }
                assert(!t0.contains(k)) by {
                    if t0.contains(k) {
                        let i = choose|i: int| 0 <= i < t0.len() && t0[i] == k;
                        assert(keys@[i] == k);
                    }
                }
                assert(self.graph@.dom() =~= g.dom().remove(vertex));
                assert forall|kk: i64| #[trigger] self@.contains_key(kk) implies self@[kk] == if t1.contains(kk) {
                    bypass(g, vertex)[kk]
                } else {
                    g[kk]
                } by {
                    if kk == k {
                        assert(self@[kk] == set@);
                        if before.contains(vertex) {
                            assert(set@ =~= bypass(g, vertex)[kk]);
                        } else {
                            assert(set@ =~= before);
                            assert(set@ =~= bypass(g, vertex)[kk]);
                        }
                    } else {
                        assert(self@[kk] == pre[kk]);
                        assert(pre.contains_key(kk));
                    }
                }
                let added = if before.contains(vertex) {
                    children@.map_values(|c: i64| (k, c))
                } else {
                    Seq::empty()
                };
                assert(new_edges@ == edges_before + added);
                assert forall|e: (i64, i64)| new_edges@.to_set().contains(e) <==> bypass_edges(g, vertex).filter(
                    |e: (i64, i64)| t1.contains(e.0),
                ).contains(e) by {
                    if new_edges@.to_set().contains(e) {
                        let i = choose|i: int| 0 <= i < new_edges@.len() && new_edges@[i] == e;
                        if i < edges_before.len() {
                            assert(edges_before.to_set().contains(e));
                        } else {
                            let c = children@[i - edges_before.len()];
                            assert(e == (k, c));
                            assert(children@.to_set().contains(c));
                        }
                    }
                    if bypass_edges(g, vertex).filter(|e: (i64, i64)| t1.contains(e.0)).contains(e) {
                        if e.0 == k {
                            assert(children@.to_set().contains(e.1));
                            let i = choose|i: int| 0 <= i < children@.len() && children@[i] == e.1;
                            assert(added[i] == e);
                            assert(new_edges@[edges_before.len() + i] == e);
                        } else {
                            assert(edges_before.to_set().contains(e));
                            let i = choose|i: int| 0 <= i < edges_before.len() && edges_before[i] == e;
                            assert(new_edges@[i] == e);
                        }
                    }
                }
                assert(new_edges@.to_set() =~= bypass_edges(g, vertex).filter(
                    |e: (i64, i64)| t1.contains(e.0),
                ));
                assert forall|a: int, b: int|
                    0 <= a < b < new_edges@.len() implies new_edges@[a] != new_edges@[b] by {
                    if b >= edges_before.len() {
                        if a < edges_before.len() {
                            assert(edges_before.to_set().contains(edges_before[a]));
                            assert(!t0.contains(k));
                        } else {
                            assert(children@[a - edges_before.len()] != children@[b
                                - edges_before.len()]);
                        }
                    }
                }
            }
            j = j + 1;
        }
        proof {
            assert(keys@.take(n as int) == keys@);
            assert forall|k: i64| keys@.contains(k) <==> keys@.to_set().contains(k) by {}
            assert(self@ =~= bypass(g, vertex));
            assert(new_edges@.to_set() =~= bypass_edges(g, vertex));
        }
        Some(new_edges)
    }

    /// Drops the edge `parent -> child`, if there is one.
    pub fn remove_edge(&mut self, parent: &i64, child: &i64)
        ensures
            final(self)@ == if old(self)@.contains_key(*parent) {
                old(self)@.insert(*parent, old(self)@[*parent].remove(*child))
            } else {
                old(self)@
            },
    {
        if !self.graph.contains_key(parent) {
            return;
        }
        let mut set = self.graph.remove(parent).unwrap();
        set.remove(child);
        self.graph.insert(*parent, set);
        proof {
            assert(self@ =~= old(self)@.insert(*parent, old(self)@[*parent].remove(*child)));
        }
    }

    /// Whether `child_vertex` is `parent_vertex` itself or lies below it.
    pub fn is_parent_of(&self, parent_vertex: &i64, child_vertex: &i64) -> (r: bool)
        ensures
            r == reaches_or_same(self@, *parent_vertex, *child_vertex),
    {
        if *parent_vertex == *child_vertex {
            return true;
        }
        let below = descendants_of(&self.graph, *parent_vertex);
        below.contains(child_vertex)
    }

    /// Every vertex below `vertex`, or `None` when it is not in the graph.
    pub fn get_all_children(&self, vertex: &i64) -> (r: Option<HashSet<i64>>)
        ensures
            match r {
                Some(set) => self@.contains_key(*vertex) && set@ == descendants(self@, *vertex),
                None => !self@.contains_key(*vertex),
            },
    {
        if !self.contains_vertex(vertex) {
            return None;
        }
        Some(descendants_of(&self.graph, *vertex))
    }

    /// Every vertex above `child`, or `None` when it is not in the graph.
    pub fn get_ancestors(&self, child: &i64) -> (r: Option<HashSet<i64>>)
        ensures
            match r {
                Some(set) => self@.contains_key(*child) && set@ == ancestors(self@, *child),
                None => !self@.contains_key(*child),
            },
    {
        if !self.contains_vertex(child) {
            return None;
        }
        Some(ancestors_of(&self.graph, *child))
    }

    /// The vertices that could become new children of `search_vertex` without
    /// closing a cycle: not itself, not above it and not already its child.
    pub fn get_non_cyclic_additions(&self, search_vertex: &i64) -> (r: Option<HashSet<i64>>)
        ensures
            match r {
                Some(set) => self@.contains_key(*search_vertex) && set@ == non_cyclic_additions(
                    self@,
                    *search_vertex,
                ),
                None => !self@.contains_key(*search_vertex),
            },
    {
        if !self.contains_vertex(search_vertex) {
            return None;
        }
        let ghost g = self@;
        let above = ancestors_of(&self.graph, *search_vertex);
        let children = self.graph.get(search_vertex).unwrap();
        let keys = vertex_list(&self.graph);
        let mut result: HashSet<i64> = HashSet::new();
        let n = keys.len();
        let mut j: usize = 0;
        while j < n
            invariant
                g == adjacency(self.graph@),
                g.contains_key(*search_vertex),
                children@ == g[*search_vertex],
                above@ == ancestors(g, *search_vertex),
                n == keys@.len(),
                j <= n,
                keys@.to_set() == g.dom(),
                result@ == non_cyclic_additions(g, *search_vertex).filter(
                    |k: i64| keys@.take(j as int).contains(k),
                ),
            decreases n - j,
        {
            let k = keys[j];
            proof {
                assert(keys@.to_set().contains(k));
            }
            if k != *search_vertex && !above.contains(&k) && !children.contains(&k) {
                result.insert(k);
            }
            proof {
                let t0 = keys@.take(j as int);
                let t1 = keys@.take(j + 1);
                assert(t1 == t0.push(k));
                assert forall|z: i64| t1.contains(z) <==> (t0.contains(z) || z == k) by {
                    if t1.contains(z) {
                        let i = choose|i: int| 0 <= i < t1.len() && t1[i] == z;
                        if i < j {
                            assert(t0[i] == z);
                        }
                    }
                    if t0.contains(z) {
                        let i = choose|i: int| 0 <= i < t0.len() && t0[i] == z;
                        assert(t1[i] == z);
                    }
                    assert(t1[j as int] == k);
                }
                assert(result@ =~= non_cyclic_additions(g, *search_vertex).filter(
                    |k: i64| t1.contains(k),
                ));
            }
            j = j + 1;
        }
        proof {
            assert(keys@.take(n as int) == keys@);
            assert forall|k: i64| keys@.contains(k) <==> keys@.to_set().contains(k) by {}
            assert(result@ =~= non_cyclic_additions(g, *search_vertex));
        }
        Some(result)
    }

    /// The change to the edges that removing `vertex` makes: its parents and
    /// its children, or neither when it is not in the graph.
    pub fn get_removal_patch(&self, vertex: &i64) -> (r: GraphPatch)
        ensures
            r.to_remove == *vertex,
            match (r.parents, r.children) {
                (Some(ps), Some(cs)) => {
                    &&& self@.contains_key(*vertex)
                    &&& ps@.to_set() == parents(self@, *vertex)
                    &&& ps@.no_duplicates()
                    &&& cs@.to_set() == self@[*vertex]
                    &&& cs@.no_duplicates()
                },
                (None, None) => !self@.contains_key(*vertex),
                _ => false,
            },
    {
        if !self.contains_vertex(vertex) {
            return GraphPatch { to_remove: *vertex, parents: None, children: None };
        }
        let ghost g = self@;
        let keys = vertex_list(&self.graph);
        let mut ps: Vec<i64> = Vec::new();
        let n = keys.len();
        let mut j: usize = 0;
        while j < n
            invariant
                g == adjacency(self.graph@),
                n == keys@.len(),
                j <= n,
                keys@.to_set() == g.dom(),
                keys@.no_duplicates(),
                ps@.no_duplicates(),
                forall|z: i64|
                    #[trigger] ps@.contains(z) <==> (keys@.take(j as int).contains(z) && edge(
                        g,
                        z,
                        *vertex,
                    )),
            decreases n - j,
        {
            let k = keys[j];
            proof {
                assert(keys@.to_set().contains(k));
            }
            let ghost before = ps@;
            let set = self.graph.get(&k).unwrap();
            proof {
                if before.contains(k) {
                    let i = choose|i: int| 0 <= i < j && keys@.take(j as int)[i] == k;
                    assert(keys@[i] == k);
                }
            }
            if set.contains(vertex) {
                ps.push(k);
            }
            proof {
                let t0 = keys@.take(j as int);
                let t1 = keys@.take(j + 1);
                assert(t1 == t0.push(k));
                assert(!t0.contains(k)) by {
                    if t0.contains(k) {
                        let i = choose|i: int| 0 <= i < t0.len() && t0[i] == k;
                        assert(keys@[i] == k);
                    }
                }
                assert forall|z: i64| #[trigger] ps@.contains(z) <==> (t1.contains(z) && edge(g, z, *vertex)) by {
                    if t1.contains(z) {
                        let i = choose|i: int| 0 <= i < t1.len() && t1[i] == z;
                        if i < j {
                            assert(t0[i] == z);
                        }
                    }
                    if t0.contains(z) {
                        let i = choose|i: int| 0 <= i < t0.len() && t0[i] == z;
                        assert(t1[i] == z);
                    }
                    assert(t1[j as int] == k);
                    if ps@.contains(z) && z != k {
                        let i = choose|i: int| 0 <= i < ps@.len() && ps@[i] == z;
                        if ps@.len() > before.len() && i == before.len() {
                        } else {
                            assert(before[i] == z);
                            assert(before.contains(z));
                        }
                    }
                    if before.contains(z) {
                        let i = choose|i: int| 0 <= i < before.len() && before[i] == z;
                        assert(ps@[i] == z);
                    }
                    if z == k && set@.contains(*vertex) {
                        assert(ps@[ps@.len() - 1] == k);
                    }
                }
            }
            j = j + 1;
        }
        let cs = set_elements(self.graph.get(vertex).unwrap());
        proof {
            assert(keys@.take(n as int) == keys@);
            assert forall|z: i64| ps@.to_set().contains(z) <==> parents(g, *vertex).contains(z) by {
                if edge(g, z, *vertex) {
                    assert(keys@.to_set().contains(z));
                }
            }
            assert(ps@.to_set() =~= parents(g, *vertex));
        }
        GraphPatch { to_remove: *vertex, parents: Some(ps), children: Some(cs) }
    }
}

} // verus!
