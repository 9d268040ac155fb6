//! Reachability over adjacency maps from vertices to their children.

use std::collections::HashMap;
use std::collections::HashSet;
use vstd::prelude::*;
use vstd::std_specs::iter::IteratorSpec;

verus! {

broadcast use vstd::std_specs::hash::group_hash_axioms;

/// The abstract adjacency of a graph: each vertex to the set of its children.
pub open spec fn adjacency(m: Map<i64, HashSet<i64>>) -> Map<i64, Set<i64>> {
    Map::new(|k: i64| m.contains_key(k), |k: i64| m[k]@)
}

/// There is an edge from `a` to `b`.
pub open spec fn edge(g: Map<i64, Set<i64>>, a: i64, b: i64) -> bool {
    g.contains_key(a) && g[a].contains(b)
}

/// Step `i` of `p` follows an edge.
pub open spec fn path_step(g: Map<i64, Set<i64>>, p: Seq<i64>, i: int) -> bool {
    edge(g, p[i], p[i + 1])
}

/// `p` is a walk along edges of `g`.
pub open spec fn is_path(g: Map<i64, Set<i64>>, p: Seq<i64>) -> bool {
    &&& p.len() >= 1
    &&& forall|i: int| 0 <= i < p.len() - 1 ==> #[trigger] path_step(g, p, i)
}

/// `p` is a walk of at least one edge from `a` to `b`.
pub open spec fn walk(g: Map<i64, Set<i64>>, p: Seq<i64>, a: i64, b: i64) -> bool {
    &&& is_path(g, p)
    &&& p.len() >= 2
    &&& p[0] == a
    &&& p[p.len() - 1] == b
}

/// `b` can be reached from `a` by following one or more edges.
pub open spec fn reaches(g: Map<i64, Set<i64>>, a: i64, b: i64) -> bool {
    exists|p: Seq<i64>| #[trigger] walk(g, p, a, b)
}

/// `b` is `a` itself or reachable from it.
pub open spec fn reaches_or_same(g: Map<i64, Set<i64>>, a: i64, b: i64) -> bool {
    a == b || reaches(g, a, b)
}

/// All vertices reachable from `a` by one or more edges.
pub open spec fn descendants(g: Map<i64, Set<i64>>, a: i64) -> Set<i64> {
    Set::new(|b: i64| reaches(g, a, b))
}

/// All vertices from which `c` is reachable by one or more edges.
pub open spec fn ancestors(g: Map<i64, Set<i64>>, c: i64) -> Set<i64> {
    Set::new(|a: i64| reaches(g, a, c))
}

/// The vertices with an edge to `c`.
pub open spec fn parents(g: Map<i64, Set<i64>>, c: i64) -> Set<i64> {
    Set::new(|a: i64| edge(g, a, c))
}

/// No vertex can reach itself.
pub open spec fn acyclic(g: Map<i64, Set<i64>>) -> bool {
    forall|v: i64| !#[trigger] reaches(g, v, v)
}

pub proof fn lemma_edge_reaches(g: Map<i64, Set<i64>>, a: i64, b: i64)
    requires
        edge(g, a, b),
    ensures
        reaches(g, a, b),
{
    let p = seq![a, b];
    assert(path_step(g, p, 0));
    assert(walk(g, p, a, b));
}

pub proof fn lemma_reaches_source_is_vertex(g: Map<i64, Set<i64>>, a: i64, b: i64)
    requires
        reaches(g, a, b),
    ensures
        g.contains_key(a),
{
    let p = choose|p: Seq<i64>| #[trigger] walk(g, p, a, b);
    assert(path_step(g, p, 0));
}

pub proof fn lemma_reaches_then_edge(g: Map<i64, Set<i64>>, a: i64, b: i64, c: i64)
    requires
        reaches(g, a, b),
        edge(g, b, c),
    ensures
        reaches(g, a, c),
{
    let p = choose|p: Seq<i64>| #[trigger] walk(g, p, a, b);
    let q = p.push(c);
    assert forall|i: int| 0 <= i < q.len() - 1 implies #[trigger] path_step(g, q, i) by {
        if i < p.len() - 1 {
            assert(path_step(g, p, i));
        }
    }
    assert(walk(g, q, a, c));
}

pub proof fn lemma_edge_then_reaches(g: Map<i64, Set<i64>>, a: i64, b: i64, c: i64)
    requires
        edge(g, a, b),
        reaches(g, b, c),
    ensures
        reaches(g, a, c),
{
    let p = choose|p: Seq<i64>| #[trigger] walk(g, p, b, c);
    let q = seq![a] + p;
    assert forall|i: int| 0 <= i < q.len() - 1 implies #[trigger] path_step(g, q, i) by {
        if i > 0 {
            assert(path_step(g, p, i - 1));
        }
    }
    assert(walk(g, q, a, c));
}

pub proof fn lemma_reaches_trans(g: Map<i64, Set<i64>>, a: i64, b: i64, c: i64)
    requires
        reaches(g, a, b),
        reaches(g, b, c),
    ensures
        reaches(g, a, c),
{
    let p = choose|p: Seq<i64>| #[trigger] walk(g, p, a, b);
    let q = choose|q: Seq<i64>| #[trigger] walk(g, q, b, c);
    let r = p + q.drop_first();
    assert forall|i: int| 0 <= i < r.len() - 1 implies #[trigger] path_step(g, r, i) by {
        if i < p.len() - 1 {
            assert(path_step(g, p, i));
        } else {
            assert(path_step(g, q, i - (p.len() - 1)));
        }
    }
    assert(walk(g, r, a, c));
}

pub proof fn lemma_reaches_or_same_trans(g: Map<i64, Set<i64>>, a: i64, b: i64, c: i64)
    requires
        reaches_or_same(g, a, b),
        reaches_or_same(g, b, c),
    ensures
        reaches_or_same(g, a, c),
{
    if a != b && b != c {
        lemma_reaches_trans(g, a, b, c);
    }
}

/// Every vertex after the first on a walk from `p[0]` lies in a set that holds
/// the children of `p[0]` and is closed under taking children.
proof fn lemma_walk_in_closed(g: Map<i64, Set<i64>>, p: Seq<i64>, s: Set<i64>, i: int)
    requires
        is_path(g, p),
        1 <= i < p.len(),
        forall|b: i64| edge(g, p[0], b) ==> s.contains(b),
        forall|x: i64, y: i64| s.contains(x) && edge(g, x, y) ==> s.contains(y),
    ensures
        s.contains(p[i]),
    decreases i,
{
    assert(path_step(g, p, i - 1));
    if i > 1 {
        lemma_walk_in_closed(g, p, s, i - 1);
    }
}

/// A set holding the children of `a` and closed under children holds all descendants of `a`.
pub proof fn lemma_forward_closed(g: Map<i64, Set<i64>>, a: i64, s: Set<i64>)
    requires
        forall|b: i64| edge(g, a, b) ==> s.contains(b),
        forall|x: i64, y: i64| s.contains(x) && edge(g, x, y) ==> s.contains(y),
    ensures
        forall|b: i64| reaches(g, a, b) ==> s.contains(b),
{
    assert forall|b: i64| reaches(g, a, b) implies s.contains(b) by {
        let p = choose|p: Seq<i64>| #[trigger] walk(g, p, a, b);
        lemma_walk_in_closed(g, p, s, p.len() - 1);
    }
}

proof fn lemma_walk_in_back_closed(g: Map<i64, Set<i64>>, p: Seq<i64>, s: Set<i64>, i: int)
    requires
        is_path(g, p),
        0 <= i < p.len() - 1,
        forall|a: i64| edge(g, a, p[p.len() - 1]) ==> s.contains(a),
        forall|x: i64, y: i64| s.contains(y) && edge(g, x, y) ==> s.contains(x),
    ensures
        s.contains(p[i]),
    decreases p.len() - i,
{
    assert(path_step(g, p, i));
    if i < p.len() - 2 {
        lemma_walk_in_back_closed(g, p, s, i + 1);
    }
}

/// A set holding the parents of `c` and closed under parents holds all ancestors of `c`.
pub proof fn lemma_backward_closed(g: Map<i64, Set<i64>>, c: i64, s: Set<i64>)
    requires
        forall|a: i64| edge(g, a, c) ==> s.contains(a),
        forall|x: i64, y: i64| s.contains(y) && edge(g, x, y) ==> s.contains(x),
    ensures
        forall|a: i64| reaches(g, a, c) ==> s.contains(a),
{
    assert forall|a: i64| reaches(g, a, c) implies s.contains(a) by {
        let p = choose|p: Seq<i64>| #[trigger] walk(g, p, a, c);
        lemma_walk_in_back_closed(g, p, s, 0);
    }
}

/// The elements of a set, in some order and without repetition.
pub fn set_elements(s: &HashSet<i64>) -> (r: Vec<i64>)
    ensures
        r@.to_set() == s@,
        r@.no_duplicates(),
{
    let mut r: Vec<i64> = Vec::new();
    for x in it: s.iter()
        invariant
            r@.len() == it.index(),
            forall|i: int| 0 <= i < it.index() ==> r@[i] == *it.seq()[i],
            it.seq() == s.iter().remaining(),
    {
        r.push(*x);
    }
    proof {
        let sq = s.iter().remaining();
        assert(r@ =~= sq.unref());
    }
    r
}

/// The order in which the keys of `m` are walked: one order for one map.
pub open spec fn key_order<V>(m: &HashMap<i64, V>) -> Seq<i64> {
    vstd::std_specs::hash::into_iter_keys(m.keys())
}

/// The keys of a map, in the order in which they are walked, without repetition.
pub fn vertex_list<V>(m: &HashMap<i64, V>) -> (r: Vec<i64>)
    ensures
        r@ == key_order(m),
        r@.to_set() == m@.dom(),
        r@.no_duplicates(),
{
    let mut r: Vec<i64> = Vec::new();
    for x in it: m.keys()
        invariant
            r@.len() == it.index(),
            forall|i: int| 0 <= i < it.index() ==> r@[i] == *it.seq()[i],
            it.seq() == m.keys().remaining(),
    {
        r.push(*x);
    }
    proof {
        let sq = m.keys().remaining();
        assert(r@ =~= sq.unref());
    }
    r
}

/// Marks the children of `x` as visited and stacks those that are vertices
/// and were not visited before.
fn push_children(
    m: &HashMap<i64, HashSet<i64>>,
    x: i64,
    visited: &mut HashSet<i64>,
    stack: &mut Vec<i64>,
)
    requires
        m@.contains_key(x),
    ensures
        final(visited)@ == old(visited)@.union(m@[x]@),
        final(stack)@.len() >= old(stack)@.len(),
        forall|i: int| 0 <= i < old(stack)@.len() ==> final(stack)@[i] == old(stack)@[i],
        forall|i: int|
            old(stack)@.len() <= i < final(stack)@.len() ==> {
                &&& m@.contains_key(#[trigger] final(stack)@[i])
                &&& !old(visited)@.contains(final(stack)@[i])
                &&& m@[x]@.contains(final(stack)@[i])
            },
        forall|y: i64|
            m@[x]@.contains(y) && m@.contains_key(y) && !old(visited)@.contains(y)
                ==> final(stack)@.contains(y),
{
    let children = m.get(&x).unwrap();
    let elems = set_elements(children);
    let ghost v0 = visited@;
    let ghost s0 = stack@;
    let n = elems.len();
    let mut j: usize = 0;
    while j < n
        invariant
            n == elems@.len(),
            j <= n,
            m@.contains_key(x),
            elems@.to_set() == m@[x]@,
            elems@.no_duplicates(),
            forall|z: i64|
                #[trigger] visited@.contains(z) <==> (v0.contains(z) || elems@.take(
                    j as int,
                ).contains(z)),
            stack@.len() >= s0.len(),
            forall|i: int| 0 <= i < s0.len() ==> stack@[i] == s0[i],
            forall|i: int|
                s0.len() <= i < stack@.len() ==> {
                    &&& m@.contains_key(#[trigger] stack@[i])
                    &&& !v0.contains(stack@[i])
                    &&& m@[x]@.contains(stack@[i])
                },
            forall|k: int|
                0 <= k < j && m@.contains_key(elems@[k]) && !v0.contains(elems@[k])
                    ==> stack@.contains(#[trigger] elems@[k]),
        decreases n - j,
    {
        let y = elems[j];
        proof {
            assert(elems@.to_set().contains(y));
        }
        let ghost vb = visited@;
        let ghost sb = stack@;
        let fresh = visited.insert(y);
        if fresh && m.contains_key(&y) {
            stack.push(y);
        }
        proof {
            let t0 = elems@.take(j as int);
            let t1 = elems@.take(j + 1);
            assert(t1 == t0.push(y));
            assert forall|z: i64| #[trigger] visited@.contains(z) <==> (v0.contains(z) || t1.contains(z)) by {
                assert(visited@ == vb.insert(y));
                if t1.contains(z) {
                    let k = choose|k: int| 0 <= k < t1.len() && t1[k] == z;
                    if k < j {
                        assert(t0[k] == z);
                        assert(t0.contains(z));
                    }
                }
                if t0.contains(z) {
                    let k = choose|k: int| 0 <= k < t0.len() && t0[k] == z;
                    assert(t1[k] == z);
                }
                assert(t1[j as int] == y);
            }
            assert forall|k: int|
                0 <= k < j + 1 && m@.contains_key(elems@[k]) && !v0.contains(elems@[k])
                implies stack@.contains(#[trigger] elems@[k]) by {
                if k == j {
                    if !fresh {
                        assert(vb.contains(y));
                        let k2 = choose|k2: int| 0 <= k2 < t0.len() && t0[k2] == y;
                        assert(elems@[k2] == y);
                        assert(elems@.no_duplicates());
                        assert(false);
                    }
                    assert(stack@[stack@.len() - 1] == y);
                } else {
                    assert(sb.contains(elems@[k]));
                    let i = choose|i: int| 0 <= i < sb.len() && sb[i] == elems@[k];
                    assert(stack@[i] == sb[i]);
                }
            }
        }
        j = j + 1;
    }
    proof {
        assert(elems@.take(n as int) == elems@);
        assert forall|z: i64| visited@.contains(z) <==> v0.union(m@[x]@).contains(z) by {
            if elems@.contains(z) {
                assert(elems@.to_set().contains(z));
            }
            if m@[x]@.contains(z) {
                assert(elems@.to_set().contains(z));
            }
        }
        assert(visited@ =~= v0.union(m@[x]@));
        assert forall|y: i64|
            m@[x]@.contains(y) && m@.contains_key(y) && !v0.contains(y)
            implies stack@.contains(y) by {
            assert(elems@.to_set().contains(y));
            let k = choose|k: int| 0 <= k < elems@.len() && elems@[k] == y;
            assert(stack@.contains(elems@[k]));
        }
    }
}

/// All vertices reachable from `v` by one or more edges.
pub fn descendants_of(m: &HashMap<i64, HashSet<i64>>, v: i64) -> (r: HashSet<i64>)
    ensures
        r@ == descendants(adjacency(m@), v),
{
    let ghost g = adjacency(m@);
    let mut visited: HashSet<i64> = HashSet::new();
    let mut stack: Vec<i64> = Vec::new();
    if !m.contains_key(&v) {
        proof {
            assert forall|b: i64| !reaches(g, v, b) by {
                if reaches(g, v, b) {
                    lemma_reaches_source_is_vertex(g, v, b);
                }
            }
            assert(visited@ =~= descendants(g, v));
        }
        return visited;
    }
    push_children(m, v, &mut visited, &mut stack);
    proof {
        assert forall|y: i64| visited@.contains(y) implies reaches(g, v, y) by {
            assert(edge(g, v, y));
            lemma_edge_reaches(g, v, y);
        }
        assert forall|x: i64| visited@.contains(x) && !stack@.contains(x) implies
            forall|y: i64| edge(g, x, y) ==> visited@.contains(y) by {
            assert forall|y: i64| edge(g, x, y) implies visited@.contains(y) by {
                assert(m@[v]@.contains(x));
            }
        }
        assert forall|i: int| 0 <= i < stack@.len() implies visited@.contains(
            #[trigger] stack@[i],
        ) by {
        }
    }
    while stack.len() > 0
        invariant
            g == adjacency(m@),
            m@.contains_key(v),
            forall|y: i64| visited@.contains(y) ==> reaches(g, v, y),
            forall|y: i64| edge(g, v, y) ==> visited@.contains(y),
            forall|i: int|
                0 <= i < stack@.len() ==> visited@.contains(#[trigger] stack@[i]) && m@.contains_key(
                    stack@[i],
                ),
            forall|x: i64|
                visited@.contains(x) && !stack@.contains(x) ==> forall|y: i64|
                    edge(g, x, y) ==> visited@.contains(y),
        decreases m@.dom().len() - visited@.intersect(m@.dom()).len(), stack@.len(),
    {
        let ghost old_visited = visited@;
        let ghost old_stack = stack@;
        let x = stack.pop().unwrap();
        let ghost mid_stack = stack@;
        proof {
            assert(old_stack[old_stack.len() - 1] == x);
            assert(mid_stack == old_stack.drop_last());
        }
        push_children(m, x, &mut visited, &mut stack);
        proof {
            assert(reaches(g, v, x));
            assert forall|y: i64| visited@.contains(y) implies reaches(g, v, y) by {
                if !old_visited.contains(y) {
                    assert(edge(g, x, y));
                    lemma_reaches_then_edge(g, v, x, y);
                }
            }
            assert forall|i: int| 0 <= i < stack@.len() implies visited@.contains(
                #[trigger] stack@[i],
            ) && m@.contains_key(stack@[i]) by {
                if i < mid_stack.len() {
                    assert(old_stack[i] == stack@[i]);
                }
            }
            assert forall|w: i64| visited@.contains(w) && !stack@.contains(w) implies
                forall|y: i64| edge(g, w, y) ==> visited@.contains(y) by {
                if w != x {
                    if old_visited.contains(w) {
                        if old_stack.contains(w) {
                            let i = choose|i: int| 0 <= i < old_stack.len() && old_stack[i] == w;
                            if i < old_stack.len() - 1 {
                                assert(stack@[i] == w);
                                assert(false);
                            }
                        }
                    } else {
                        assert(m@[x]@.contains(w));
                        if m@.contains_key(w) {
                            assert(stack@.contains(w));
                        }
                    }
                }
            }
            // The measure: vertices of the graph not yet visited, then the stack.
            let d = m@.dom();
            vstd::set_lib::lemma_len_subset(visited@.intersect(d), d);
            vstd::set_lib::lemma_len_subset(old_visited.intersect(d), visited@.intersect(d));
            if stack@.len() > mid_stack.len() {
                let y = stack@[mid_stack.len() as int];
                assert(!old_visited.intersect(d).contains(y));
                assert(visited@.intersect(d).contains(y));
                vstd::set_lib::lemma_len_subset(
                    old_visited.intersect(d).insert(y),
                    visited@.intersect(d),
                );
            }
        }
    }
    proof {
        lemma_forward_closed(g, v, visited@);
        assert(visited@ =~= descendants(g, v));
    }
    visited
}

/// Marks the parents of `x` as visited and stacks those not visited before.
fn push_parents(
    m: &HashMap<i64, HashSet<i64>>,
    keys: &Vec<i64>,
    x: i64,
    visited: &mut HashSet<i64>,
    stack: &mut Vec<i64>,
)
    requires
        keys@.to_set() == m@.dom(),
        keys@.no_duplicates(),
    ensures
        final(visited)@ == old(visited)@.union(parents(adjacency(m@), x)),
        final(stack)@.len() >= old(stack)@.len(),
        forall|i: int| 0 <= i < old(stack)@.len() ==> final(stack)@[i] == old(stack)@[i],
        forall|i: int|
            old(stack)@.len() <= i < final(stack)@.len() ==> {
                &&& m@.contains_key(#[trigger] final(stack)@[i])
                &&& !old(visited)@.contains(final(stack)@[i])
                &&& edge(adjacency(m@), final(stack)@[i], x)
            },
        forall|a: i64|
            edge(adjacency(m@), a, x) && !old(visited)@.contains(a) ==> final(stack)@.contains(a),
{
    let ghost g = adjacency(m@);
    let ghost v0 = visited@;
    let ghost s0 = stack@;
    let n = keys.len();
    let mut j: usize = 0;
    while j < n
        invariant
            g == adjacency(m@),
            n == keys@.len(),
            j <= n,
            keys@.to_set() == m@.dom(),
            keys@.no_duplicates(),
            forall|z: i64|
                #[trigger] visited@.contains(z) <==> (v0.contains(z) || (keys@.take(
                    j as int,
                ).contains(z) && edge(g, z, x))),
            stack@.len() >= s0.len(),
            forall|i: int| 0 <= i < s0.len() ==> stack@[i] == s0[i],
            forall|i: int|
                s0.len() <= i < stack@.len() ==> {
                    &&& m@.contains_key(#[trigger] stack@[i])
                    &&& !v0.contains(stack@[i])
                    &&& edge(g, stack@[i], x)
                },
            forall|k: int|
                0 <= k < j && edge(g, keys@[k], x) && !v0.contains(keys@[k]) ==> stack@.contains(
                    #[trigger] keys@[k],
                ),
        decreases n - j,
    {
        let k = keys[j];
        proof {
            assert(keys@.to_set().contains(k));
        }
        let children = m.get(&k).unwrap();
        let ghost vb = visited@;
        let ghost sb = stack@;
        if children.contains(&x) {
            let fresh = visited.insert(k);
            if fresh {
                stack.push(k);
            }
        }
        proof {
            let t0 = keys@.take(j as int);
            let t1 = keys@.take(j + 1);
            assert(t1 == t0.push(k));
            assert forall|z: i64| #[trigger] visited@.contains(z) <==> (v0.contains(z) || (t1.contains(z) && edge(g, z, x))) by {
                if t1.contains(z) {
                    let i = choose|i: int| 0 <= i < t1.len() && t1[i] == z;
                    if i < j {
                        assert(t0[i] == z);
                        assert(t0.contains(z));
                    }
                }
                if t0.contains(z) {
                    let i = choose|i: int| 0 <= i < t0.len() && t0[i] == z;
                    assert(t1[i] == z);
                }
                assert(t1[j as int] == k);
            }
            assert forall|i: int|
                0 <= i < j + 1 && edge(g, keys@[i], x) && !v0.contains(keys@[i])
                implies stack@.contains(#[trigger] keys@[i]) by {
                if i == j {
                    if vb.contains(k) {
                        assert(t0.contains(k));
                        let i2 = choose|i2: int| 0 <= i2 < t0.len() && t0[i2] == k;
                        assert(keys@[i2] == k);
                        assert(false);
                    }
                    assert(stack@[stack@.len() - 1] == k);
                } else {
                    assert(sb.contains(keys@[i]));
                    let i3 = choose|i3: int| 0 <= i3 < sb.len() && sb[i3] == keys@[i];
                    assert(stack@[i3] == sb[i3]);
                }
            }
        }
        j = j + 1;
    }
    proof {
        assert(keys@.take(n as int) == keys@);
        assert forall|z: i64| visited@.contains(z) <==> v0.union(parents(g, x)).contains(z) by {
            if edge(g, z, x) {
                assert(keys@.to_set().contains(z));
            }
        }
        assert(visited@ =~= v0.union(parents(g, x)));
        assert forall|a: i64| edge(g, a, x) && !v0.contains(a) implies stack@.contains(a) by {
            assert(keys@.to_set().contains(a));
            let i = choose|i: int| 0 <= i < keys@.len() && keys@[i] == a;
            assert(stack@.contains(keys@[i]));
        }
    }
}

/// All vertices from which `c` is reachable by one or more edges.
pub fn ancestors_of(m: &HashMap<i64, HashSet<i64>>, c: i64) -> (r: HashSet<i64>)
    ensures
        r@ == ancestors(adjacency(m@), c),
{
    let ghost g = adjacency(m@);
    let keys = vertex_list(m);
    let mut visited: HashSet<i64> = HashSet::new();
    let mut stack: Vec<i64> = Vec::new();
    push_parents(m, &keys, c, &mut visited, &mut stack);
    proof {
        assert forall|a: i64| visited@.contains(a) implies reaches(g, a, c) by {
            lemma_edge_reaches(g, a, c);
        }
        assert forall|y: i64| visited@.contains(y) && !stack@.contains(y) implies
            forall|a: i64| edge(g, a, y) ==> visited@.contains(a) by {
            assert(edge(g, y, c));
        }
    }
    while stack.len() > 0
        invariant
            g == adjacency(m@),
            keys@.to_set() == m@.dom(),
            keys@.no_duplicates(),
            forall|a: i64| visited@.contains(a) ==> reaches(g, a, c),
            forall|a: i64| edge(g, a, c) ==> visited@.contains(a),
            forall|i: int|
                0 <= i < stack@.len() ==> visited@.contains(#[trigger] stack@[i]) && m@.contains_key(
                    stack@[i],
                ),
            forall|y: i64|
                visited@.contains(y) && !stack@.contains(y) ==> forall|a: i64|
                    edge(g, a, y) ==> visited@.contains(a),
        decreases m@.dom().len() - visited@.intersect(m@.dom()).len(), stack@.len(),
    {
        let ghost old_visited = visited@;
        let ghost old_stack = stack@;
        let x = stack.pop().unwrap();
        let ghost mid_stack = stack@;
        proof {
            assert(old_stack[old_stack.len() - 1] == x);
            assert(mid_stack == old_stack.drop_last());
        }
        push_parents(m, &keys, x, &mut visited, &mut stack);
        proof {
            assert(reaches(g, x, c));
            assert forall|a: i64| visited@.contains(a) implies reaches(g, a, c) by {
                if !old_visited.contains(a) {
                    lemma_edge_then_reaches(g, a, x, c);
                }
            }
            assert forall|i: int| 0 <= i < stack@.len() implies visited@.contains(
                #[trigger] stack@[i],
            ) && m@.contains_key(stack@[i]) by {
                if i < mid_stack.len() {
                    assert(old_stack[i] == stack@[i]);
                }
            }
            assert forall|w: i64| visited@.contains(w) && !stack@.contains(w) implies
                forall|a: i64| edge(g, a, w) ==> visited@.contains(a) by {
                if w != x {
                    if old_visited.contains(w) {
                        if old_stack.contains(w) {
                            let i = choose|i: int| 0 <= i < old_stack.len() && old_stack[i] == w;
                            if i < old_stack.len() - 1 {
                                assert(stack@[i] == w);
                                assert(false);
                            }
                        }
                    } else {
                        assert(edge(g, w, x));
                        assert(stack@.contains(w));
                    }
                }
            }
            let d = m@.dom();
            vstd::set_lib::lemma_len_subset(visited@.intersect(d), d);
            vstd::set_lib::lemma_len_subset(old_visited.intersect(d), visited@.intersect(d));
            if stack@.len() > mid_stack.len() {
                let y = stack@[mid_stack.len() as int];
                assert(!old_visited.intersect(d).contains(y));
                assert(visited@.intersect(d).contains(y));
                vstd::set_lib::lemma_len_subset(
                    old_visited.intersect(d).insert(y),
                    visited@.intersect(d),
                );
            }
        }
    }
    proof {
        lemma_backward_closed(g, c, visited@);
        assert(visited@ =~= ancestors(g, c));
    }
    visited
}

/// A fresh set with the same elements.
pub fn copy_set(s: &HashSet<i64>) -> (r: HashSet<i64>)
    ensures
        r@ == s@,
{
    let elems = set_elements(s);
    let mut r: HashSet<i64> = HashSet::new();
    let n = elems.len();
    let mut j: usize = 0;
    while j < n
        invariant
            n == elems@.len(),
            j <= n,
            r@ == elems@.take(j as int).to_set(),
        decreases n - j,
    {
        proof {
            assert(elems@.take(j + 1) == elems@.take(j as int).push(elems@[j as int]));
            elems@.take(j as int).lemma_push_to_set_commute(elems@[j as int]);
        }
        r.insert(elems[j]);
        j = j + 1;
    }
    proof {
        assert(elems@.take(n as int) == elems@);
    }
    r
}

/// Adds every element of `src` to `target`.
pub fn extend_set(target: &mut HashSet<i64>, src: &HashSet<i64>)
    ensures
        final(target)@ == old(target)@.union(src@),
{
    let elems = set_elements(src);
    let n = elems.len();
    let mut j: usize = 0;
    let ghost t0 = target@;
    while j < n
        invariant
            n == elems@.len(),
            j <= n,
            target@ == t0.union(elems@.take(j as int).to_set()),
        decreases n - j,
    {
        proof {
            assert(elems@.take(j + 1) == elems@.take(j as int).push(elems@[j as int]));
            elems@.take(j as int).lemma_push_to_set_commute(elems@[j as int]);
        }
        target.insert(elems[j]);
        proof {
            assert(target@ =~= t0.union(elems@.take(j + 1).to_set()));
        }
        j = j + 1;
    }
    proof {
        assert(elems@.take(n as int) == elems@);
    }
}

} // verus!
