//! What the stored rows mean once read: relations, mappings and tables keyed
//! by identifier, and the relation rows that a category's removal writes.

use crate::logic::graph::GraphPatch;
use crate::logic::reach::adjacency;
use std::collections::HashMap;
use std::collections::HashSet;
use vstd::prelude::*;

verus! {

broadcast use vstd::std_specs::hash::group_hash_axioms;

/// The relations that the rows `(parent, child)` describe: every identifier
/// that occurs in a row is a vertex, with the children that rows give it.
pub open spec fn relation_rows(rows: Seq<(i64, i64)>) -> Map<i64, Set<i64>> {
    Map::new(
        |k: i64| exists|i: int| 0 <= i < rows.len() && (rows[i].0 == k || rows[i].1 == k),
        |k: i64| Set::new(|c: i64| exists|i: int| 0 <= i < rows.len() && rows[i] == (k, c)),
    )
}

/// The table that the rows `(key, value)` describe; a later row for a key
/// replaces an earlier one.
pub open spec fn keyed_rows<V>(rows: Seq<(i64, V)>) -> Map<i64, V>
    decreases rows.len(),
{
    if rows.len() == 0 {
        Map::empty()
    } else {
        keyed_rows(rows.drop_last()).insert(rows.last().0, rows.last().1)
    }
}

/// Every pair of a parent in `parents` with a child in `children`, by parent
/// and then by child.
pub open spec fn all_pairs(parents: Seq<i64>, children: Seq<i64>) -> Seq<(i64, i64)>
    decreases parents.len(),
{
    if parents.len() == 0 {
        Seq::empty()
    } else {
        all_pairs(parents.drop_last(), children) + children.map_values(
            |c: i64| (parents.last(), c),
        )
    }
}

/// The relations stored as the rows `(parent, child)`.
pub fn relations_from_rows(rows: &Vec<(i64, i64)>) -> (r: HashMap<i64, HashSet<i64>>)
    ensures
        adjacency(r@) == relation_rows(rows@),
{
    let mut acc: HashMap<i64, HashSet<i64>> = HashMap::new();
    let n = rows.len();
    let mut j: usize = 0;
    proof {
        assert(adjacency(acc@) =~= relation_rows(rows@.take(0)));
    }
    while j < n
        invariant
            n == rows@.len(),
            j <= n,
            adjacency(acc@) == relation_rows(rows@.take(j as int)),
        decreases n - j,
    {
        let (parent, child) = rows[j];
        let ghost before = adjacency(acc@);
        let ghost t0 = rows@.take(j as int);
        let ghost t1 = rows@.take(j + 1);
        let mut children = match acc.remove(&parent) {
            Some(set) => set,
            None => HashSet::new(),
        };
        children.insert(child);
        acc.insert(parent, children);
        if !acc.contains_key(&child) {
            acc.insert(child, HashSet::new());
        }
        proof {
            let start = if before.contains_key(parent) {
                before[parent]
            } else {
                Set::<i64>::empty()
            };
            let with_parent = before.insert(parent, start.insert(child));
            let expected = if with_parent.contains_key(child) {
                with_parent
            } else {
                with_parent.insert(child, Set::<i64>::empty())
            };
            assert(adjacency(acc@) =~= expected);
            assert(t1 == t0.push((parent, child)));
            assert(t1[j as int] == (parent, child));
            assert forall|k: i64| expected.contains_key(k) <==> relation_rows(t1).contains_key(k) by {
                if relation_rows(t1).contains_key(k) {
                    let i = choose|i: int| 0 <= i < t1.len() && (t1[i].0 == k || t1[i].1 == k);
                    if i < j {
                        assert(t0[i] == t1[i]);
                        assert(relation_rows(t0).contains_key(k));
                    }
                }
                if expected.contains_key(k) && k != parent && k != child {
                    assert(relation_rows(t0).contains_key(k));
                    let i = choose|i: int| 0 <= i < t0.len() && (t0[i].0 == k || t0[i].1 == k);
                    assert(t1[i] == t0[i]);
                }
            }
            assert forall|k: i64| expected.contains_key(k) implies expected[k] =~= relation_rows(
                t1,
            )[k] by {
                assert forall|c: i64| expected[k].contains(c) <==> relation_rows(t1)[k].contains(
                    c,
                ) by {
                    if relation_rows(t1)[k].contains(c) {
                        let i = choose|i: int| 0 <= i < t1.len() && t1[i] == (k, c);
                        if i < j {
                            assert(t0[i] == t1[i]);
                            assert(relation_rows(t0)[k].contains(c));
                            assert(relation_rows(t0).contains_key(k));
                        }
                    }
                    if expected[k].contains(c) && !(k == parent && c == child) {
                        assert(before.contains_key(k) && before[k].contains(c));
                        assert(relation_rows(t0)[k].contains(c));
                        let i = choose|i: int| 0 <= i < t0.len() && t0[i] == (k, c);
                        assert(t1[i] == t0[i]);
                    }
                }
            }
            assert(expected =~= relation_rows(t1));
        }
        j = j + 1;
    }
    proof {
        assert(rows@.take(n as int) =~= rows@);
    }
    acc
}

/// The table stored as the rows `(key, value)`.
pub fn table_from_rows<V>(rows: Vec<(i64, V)>) -> (r: HashMap<i64, V>)
    ensures
        r@ == keyed_rows(rows@),
{
    let ghost all = rows@;
    let mut rest = rows;
    let mut pending: Vec<(i64, V)> = Vec::new();
    while rest.len() > 0
        invariant
            all == rest@ + pending@.reverse(),
        decreases rest@.len(),
    {
        let row = rest.pop().unwrap();
        let ghost p0 = pending@;
        pending.push(row);
        proof {
            assert(pending@.reverse() =~= seq![row] + p0.reverse());
        }
    }
    let mut acc: HashMap<i64, V> = HashMap::new();
    let ghost order = pending@.reverse();
    proof {
        assert(rest@ =~= Seq::<(i64, V)>::empty());
        assert(all =~= order);
        assert(acc@ =~= keyed_rows(order.take(0)));
    }
    while pending.len() > 0
        invariant
            order == all,
            pending@.len() <= order.len(),
            pending@.reverse() == order.skip(order.len() - pending@.len()),
            acc@ == keyed_rows(order.take(order.len() - pending@.len())),
        decreases pending@.len(),
    {
        let ghost k = order.len() - pending@.len();
        let ghost p0 = pending@;
        let (key, value) = pending.pop().unwrap();
        proof {
            assert(p0 == pending@.push((key, value)));
            assert(p0.reverse()[0] == (key, value));
            assert(order[k] == (key, value));
            assert(pending@.reverse() =~= order.skip(k + 1)) by {
                assert(pending@.reverse() =~= p0.reverse().drop_first());
            }
            assert(order.take(k + 1).drop_last() =~= order.take(k));
        }
        acc.insert(key, value);
        proof {
            assert(order.take(k + 1).last() == order[k]);
        }
    }
    proof {
        assert(order.take(order.len() as int) =~= order);
    }
    acc
}

/// The relation rows that removing a category writes: each parent of the
/// removed category to each of its children. None when either list is absent.
pub fn patch_edges(patch: &GraphPatch) -> (r: Vec<(i64, i64)>)
    ensures
        r@ == match (patch.parents, patch.children) {
            (Some(parents), Some(children)) => all_pairs(parents@, children@),
            _ => Seq::empty(),
        },
{
    let mut r: Vec<(i64, i64)> = Vec::new();
    match (&patch.parents, &patch.children) {
        (Some(parents), Some(children)) => {
            let n = parents.len();
            let m = children.len();
            let mut i: usize = 0;
            proof {
                assert(r@ =~= all_pairs(parents@.take(0), children@));
            }
            while i < n
                invariant
                    n == parents@.len(),
                    m == children@.len(),
                    i <= n,
                    r@ == all_pairs(parents@.take(i as int), children@),
                decreases n - i,
            {
                let ghost r0 = r@;
                let p = parents[i];
                let mut k: usize = 0;
                while k < m
                    invariant
                        m == children@.len(),
                        k <= m,
                        r@ == r0 + children@.take(k as int).map_values(|c: i64| (p, c)),
                    decreases m - k,
                {
                    r.push((p, children[k]));
                    proof {
                        assert(r@ =~= r0 + children@.take(k + 1).map_values(|c: i64| (p, c)));
                    }
                    k = k + 1;
                }
                proof {
                    assert(children@.take(m as int) =~= children@);
                    assert(parents@.take(i + 1).drop_last() =~= parents@.take(i as int));
                    assert(parents@.take(i + 1).last() == p);
                }
                i = i + 1;
            }
            proof {
                assert(parents@.take(n as int) =~= parents@);
            }
            r
        },
        _ => r,
    }
}

} // verus!
