//! Data structure for understanding and maintaining the relationships between categories.
//!
//! An edge runs from a parent to a child; a parent implies each of its
//! descendants. An edge is refused when its child already implies its parent.

use crate::logic::graph::{bypass, law_insert_edge_keeps_acyclic, with_edge};
pub use crate::logic::graph::GraphError;
use crate::logic::reach::{
    acyclic, adjacency, descendants, descendants_of, extend_set, path_step, reaches, vertex_list,
    walk,
};
use std::collections::HashMap;
use std::collections::HashSet;
use vstd::prelude::*;

verus! {

broadcast use vstd::std_specs::hash::group_hash_axioms;

/// Parent/child relations between vertices.
#[derive(Debug)]
pub struct DirectedAcyclicGraph {
    graph: HashMap<i64, HashSet<i64>>,
}

/// The graph that holds exactly the vertices of `vertices`, none with an edge.
pub open spec fn bare_vertices(vertices: Seq<i64>) -> Map<i64, Set<i64>> {
    Map::new(|k: i64| vertices.contains(k), |k: i64| Set::<i64>::empty())
}

/// What adding the edge `e` (parent, child) to `g` gives: refused when an
/// endpoint is missing, or when the child already implies the parent.
pub open spec fn edge_added(g: Map<i64, Set<i64>>, e: (i64, i64)) -> Result<
    Map<i64, Set<i64>>,
    GraphError,
> {
    if !(g.contains_key(e.0) && g.contains_key(e.1)) {
        Err(GraphError::EdgeEndpointNotInGraph)
    } else if reaches(g, e.1, e.0) {
        Err(GraphError::WouldIntroduceCycle)
    } else {
        Ok(with_edge(g, e.0, e.1))
    }
}

/// Adding the edges of `es` to `g` one after another, up to the first refusal.
pub open spec fn edges_added(g: Map<i64, Set<i64>>, es: Seq<(i64, i64)>) -> Result<
    Map<i64, Set<i64>>,
    GraphError,
>
    decreases es.len(),
{
    if es.len() == 0 {
        Ok(g)
    } else {
        match edges_added(g, es.drop_last()) {
            Ok(h) => edge_added(h, es.last()),
            Err(e) => Err(e),
        }
    }
}

/// Once a prefix of the edges is refused, so is the whole sequence, for the same reason.
proof fn lemma_refusal_sticks(g: Map<i64, Set<i64>>, es: Seq<(i64, i64)>, k: int)
    requires
        0 <= k <= es.len(),
        edges_added(g, es.take(k)) is Err,
    ensures
        edges_added(g, es) == edges_added(g, es.take(k)),
    decreases es.len(),
{
    if k < es.len() {
        assert(es.drop_last().take(k) =~= es.take(k));
        lemma_refusal_sticks(g, es.drop_last(), k);
    } else {
        assert(es.take(k) =~= es);
    }
}

/// An edge that `insert_edge` accepts keeps an acyclic graph acyclic, unless
/// it runs from a vertex to itself.
pub proof fn law_accepted_edge_keeps_acyclic(g: Map<i64, Set<i64>>, e: (i64, i64))
    requires
        acyclic(g),
        e.0 != e.1,
    ensures
        edge_added(g, e) matches Ok(h) ==> acyclic(h),
{
    if edge_added(g, e) is Ok {
        law_insert_edge_keeps_acyclic(g, e.0, e.1);
    }
}

/// A graph that `build_from` builds is acyclic when none of its edges runs
/// from a vertex to itself.
pub proof fn law_built_graph_is_acyclic(vertices: Seq<i64>, edges: Seq<(i64, i64)>)
    requires
        forall|i: int| 0 <= i < edges.len() ==> #[trigger] edges[i].0 != edges[i].1,
    ensures
        edges_added(bare_vertices(vertices), edges) matches Ok(g) ==> acyclic(g),
    decreases edges.len(),
{
    let g0 = bare_vertices(vertices);
    if edges.len() == 0 {
        assert forall|w: i64| !#[trigger] reaches(g0, w, w) by {
            if reaches(g0, w, w) {
                let p = choose|p: Seq<i64>| #[trigger] walk(g0, p, w, w);
                assert(path_step(g0, p, 0));
            }
        }
    } else {
        let rest = edges.drop_last();
        assert forall|i: int| 0 <= i < rest.len() implies #[trigger] rest[i].0 != rest[i].1 by {
            assert(edges[i] == rest[i]);
        }
        law_built_graph_is_acyclic(vertices, rest);
        if let Ok(h) = edges_added(g0, rest) {
            assert(edges[edges.len() - 1] == edges.last());
            law_accepted_edge_keeps_acyclic(h, edges.last());
        }
    }
}

/// The statement that creates the table holding the relations, one row per edge.
pub const GRAPH_TABLE: &'static str = "CREATE TABLE IF NOT EXISTS graph(\n            parent_id INTEGER,\n            child_id INTEGER,\n            FOREIGN KEY (parent_id) REFERENCES category(id) ON DELETE CASCADE,\n            FOREIGN KEY (child_id) REFERENCES category(id) ON DELETE CASCADE,\n        UNIQUE (parent_id, child_id));";

impl View for DirectedAcyclicGraph {
    type V = Map<i64, Set<i64>>;

    closed spec fn view(&self) -> Map<i64, Set<i64>> {
        adjacency(self.graph@)
    }
}

impl DirectedAcyclicGraph {
    /// An empty graph.
    pub fn new() -> (r: Self)
        ensures
            r@ == Map::<i64, Set<i64>>::empty(),
    {
        let r = Self { graph: HashMap::new() };
        proof {
            assert(r@ =~= Map::<i64, Set<i64>>::empty());
        }
        r
    }

    /// The graph with `vertices` and then `edges` added in order; the first
    /// edge refused decides the error.
    pub fn build_from(vertices: &[i64], edges: &[(i64, i64)]) -> (r: Result<Self, GraphError>)
        ensures
            match r {
                Ok(g) => edges_added(bare_vertices(vertices@), edges@) == Ok::<
                    Map<i64, Set<i64>>,
                    GraphError,
                >(g@),
                Err(e) => edges_added(bare_vertices(vertices@), edges@) == Err::<
                    Map<i64, Set<i64>>,
                    GraphError,
                >(e),
            },
    {
        let mut graph = Self::new();
        let n = vertices.len();
        let mut i: usize = 0;
        while i < n
            invariant
                n == vertices@.len(),
                i <= n,
                graph@ == bare_vertices(vertices@.take(i as int)),
            decreases n - i,
        {
            let v = vertices[i];
            graph.insert_vertex(v);
            proof {
                let t0 = vertices@.take(i as int);
                let t1 = vertices@.take(i + 1);
                assert(t1 == t0.push(v));
                assert forall|k: i64| t1.contains(k) <==> (t0.contains(k) || k == v) by {
                    if t1.contains(k) {
                        let x = choose|x: int| 0 <= x < t1.len() && t1[x] == k;
                        if x < i {
                            assert(t0[x] == k);
                        }
                    }
                    if t0.contains(k) {
                        let x = choose|x: int| 0 <= x < t0.len() && t0[x] == k;
                        assert(t1[x] == k);
                    }
                    assert(t1[i as int] == v);
                }
                assert(graph@ =~= bare_vertices(t1));
            }
            i = i + 1;
        }
        proof {
            assert(vertices@.take(n as int) =~= vertices@);
        }
        let ghost g0 = bare_vertices(vertices@);
        let m = edges.len();
        let mut j: usize = 0;
        while j < m
            invariant
                m == edges@.len(),
                j <= m,
                g0 == bare_vertices(vertices@),
                edges_added(g0, edges@.take(j as int)) == Ok::<Map<i64, Set<i64>>, GraphError>(
                    graph@,
                ),
            decreases m - j,
        {
            let e = edges[j];
            proof {
                assert(edges@.take(j + 1).drop_last() =~= edges@.take(j as int));
                assert(edges@.take(j + 1).last() == e);
            }
            match graph.insert_edge(&e) {
                Ok(()) => {},
                Err(err) => {
                    proof {
                        let t1 = edges@.take(j + 1);
                        assert(t1.drop_last() =~= edges@.take(j as int));
                        assert(edges_added(g0, t1) == Err::<Map<i64, Set<i64>>, GraphError>(err));
                        lemma_refusal_sticks(g0, edges@, j + 1);
                    }
                    return Err(err);
                },
            }
            j = j + 1;
        }
        proof {
            assert(edges@.take(m as int) =~= edges@);
        }
        Ok(graph)
    }

    /// The statement that creates the table holding the relations.
    pub fn create() -> (r: String)
        ensures
            r@ == GRAPH_TABLE@,
    {
        String::from_str(GRAPH_TABLE)
    }

    /// Adds `vertex` without edges, unless it is present already.
    pub fn insert_vertex(&mut self, vertex: i64)
        ensures
            final(self)@ == if old(self)@.contains_key(vertex) {
                old(self)@
            } else {
                old(self)@.insert(vertex, Set::empty())
            },
    {
        if !self.graph.contains_key(&vertex) {
            self.graph.insert(vertex, HashSet::new());
            proof {
                assert(self@ =~= old(self)@.insert(vertex, Set::empty()));
            }
        }
    }

    pub fn contains_vertex(&self, vertex: &i64) -> (r: bool)
        ensures
            r == self@.contains_key(*vertex),
    {
        self.graph.contains_key(vertex)
    }

    /// Adds the edge `edge.0 -> edge.1`. Refused when an endpoint is missing,
    /// and when the child already implies the parent.
    pub fn insert_edge(&mut self, edge: &(i64, i64)) -> (r: Result<(), GraphError>)
        ensures
            match r {
                Ok(()) => edge_added(old(self)@, *edge) == Ok::<Map<i64, Set<i64>>, GraphError>(
                    final(self)@,
                ),
                Err(e) => {
                    &&& edge_added(old(self)@, *edge) == Err::<Map<i64, Set<i64>>, GraphError>(e)
                    &&& final(self)@ == old(self)@
                },
            },
    {
        if !(self.contains_vertex(&edge.0) && self.contains_vertex(&edge.1)) {
            return Err(GraphError::EdgeEndpointNotInGraph);
        }
        if self.implies(&edge.1, &edge.0) {
            return Err(GraphError::WouldIntroduceCycle);
        }
        let mut set = self.graph.remove(&edge.0).unwrap();
        set.insert(edge.1);
        self.graph.insert(edge.0, set);
        proof {
            assert(self@ =~= with_edge(old(self)@, edge.0, edge.1));
        }
        Ok(())
    }

    /// The children of `vertex`, which must be in the graph.
    pub fn get_edges(&self, vertex: &i64) -> (r: &HashSet<i64>)
        requires
            self@.contains_key(*vertex),
        ensures
            r@ == self@[*vertex],
    {
        self.graph.get(vertex).unwrap()
    }

    /// Removes `vertex`; every vertex that had it as a child adopts its children.
    pub fn remove(&mut self, vertex: i64)
        ensures
            final(self)@ == if old(self)@.contains_key(vertex) {
                bypass(old(self)@, vertex)
            } else {
                old(self)@
            },
    {
        let ghost g = self@;
        let child_vertices = match self.graph.remove(&vertex) {
            Some(set) => set,
            None => {
                proof {
                    assert(self@ =~= old(self)@);
                }
                return ;
            },
        };
        let keys = vertex_list(&self.graph);
        let n = keys.len();
        let mut j: usize = 0;
        while j < n
            invariant
                g.contains_key(vertex),
                child_vertices@ == g[vertex],
                n == keys@.len(),
                j <= n,
                keys@.no_duplicates(),
                keys@.to_set() == g.dom().remove(vertex),
                self.graph@.dom() == g.dom().remove(vertex),
                forall|k: i64|
                    #[trigger] self@.contains_key(k) ==> self@[k] == if keys@.take(
                        j as int,
                    ).contains(k) {
                        bypass(g, vertex)[k]
                    } else {
                        g[k]
                    },
            decreases n - j,
        {
            let k = keys[j];
            let ghost pre = self@;
            let ghost t0 = keys@.take(j as int);
            let ghost t1 = keys@.take(j + 1);
            proof {
                assert(keys@.to_set().contains(k));
                assert(!t0.contains(k)) by {
                    if t0.contains(k) {
                        let x = choose|x: int| 0 <= x < t0.len() && t0[x] == k;
                        assert(keys@[x] == k);
                    }
                }
                assert(pre.contains_key(k));
            }
            let mut set = self.graph.remove(&k).unwrap();
            let ghost before = set@;
            if set.remove(&vertex) {
                extend_set(&mut set, &child_vertices);
            }
            self.graph.insert(k, set);
            proof {
                assert(before == g[k]);
                assert(set@ =~= bypass(g, vertex)[k]);
                assert(t1 == t0.push(k));
                assert forall|z: i64| t1.contains(z) <==> (t0.contains(z) || z == k) by {
                    if t1.contains(z) {
                        let x = choose|x: int| 0 <= x < t1.len() && t1[x] == z;
                        if x < j {
                            assert(t0[x] == z);
                        }
                    }
                    if t0.contains(z) {
                        let x = choose|x: int| 0 <= x < t0.len() && t0[x] == z;
                        assert(t1[x] == z);
                    }
                    assert(t1[j as int] == k);
                }
                assert(self.graph@.dom() =~= g.dom().remove(vertex));
                assert forall|kk: i64| #[trigger] self@.contains_key(kk) implies self@[kk] == if t1.contains(kk) {
                    bypass(g, vertex)[kk]
                } else {
                    g[kk]
                } by {
                    if kk != k {
                        assert(pre.contains_key(kk));
                    }
                }
            }
            j = j + 1;
        }
        proof {
            assert(keys@.take(n as int) =~= keys@);
            assert forall|k: i64| #[trigger] self@.contains_key(k) implies keys@.contains(k) by {
                assert(keys@.to_set().contains(k));
            }
            assert(self@ =~= bypass(g, vertex));
        }
    }

    /// Whether `end_vertex` is a descendant of `start_vertex`.
    pub fn implies(&self, start_vertex: &i64, end_vertex: &i64) -> (r: bool)
        ensures
            r == reaches(self@, *start_vertex, *end_vertex),
    {
        let found = descendants_of(&self.graph, *start_vertex);
        found.contains(end_vertex)
    }

    /// Every descendant of `vertex`; empty when `vertex` is not in the graph.
    pub fn implies_set(&self, vertex: &i64) -> (r: HashSet<i64>)
        ensures
            r@ == descendants(self@, *vertex),
    {
        descendants_of(&self.graph, *vertex)
    }
}

} // verus!
