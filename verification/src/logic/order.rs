//! Listing identifiers in the order of their names: the name first, the
//! identifier between equal names.

use crate::logic::text::{
    chars_less, key_lt, lemma_chars_lt_total, lemma_key_lt_asymmetric, lemma_key_lt_transitive,
};
use vstd::prelude::*;

verus! {

/// The key by which `id` is ordered: its name in `names`, then the identifier itself.
pub open spec fn order_key(names: Map<i64, Seq<char>>, id: i64) -> (Seq<char>, i64) {
    (names[id], id)
}

/// `s` lists every identifier of `names` once, in increasing order of `order_key`.
pub open spec fn in_name_order(names: Map<i64, Seq<char>>, s: Seq<i64>) -> bool {
    &&& s.to_set() == names.dom()
    &&& s.no_duplicates()
    &&& forall|i: int, j: int|
        0 <= i < j < s.len() ==> key_lt(
            order_key(names, #[trigger] s[i]),
            order_key(names, #[trigger] s[j]),
        )
}

/// There is only one listing in name order.
pub proof fn law_name_order_unique(names: Map<i64, Seq<char>>, s1: Seq<i64>, s2: Seq<i64>)
    requires
        in_name_order(names, s1),
        in_name_order(names, s2),
    ensures
        s1 == s2,
    decreases s1.len(),
{
    s1.unique_seq_to_set();
    s2.unique_seq_to_set();
    if s1.len() == 0 {
        assert(s2.len() == 0);
        assert(s1 =~= s2);
    } else {
        let a = s1[0];
        let b = s2[0];
        assert(s1.to_set().contains(a));
        assert(s2.to_set().contains(b));
        if a != b {
            assert(s2.to_set().contains(a));
            let j = choose|j: int| 0 <= j < s2.len() && s2[j] == a;
            assert(s1.to_set().contains(b));
            let i = choose|i: int| 0 <= i < s1.len() && s1[i] == b;
            assert(key_lt(order_key(names, s1[0]), order_key(names, s1[i])));
            assert(key_lt(order_key(names, s2[0]), order_key(names, s2[j])));
            lemma_key_lt_asymmetric(order_key(names, a), order_key(names, b));
        }
        let c2 = names.remove(a);
        let t1 = s1.drop_first();
        let t2 = s2.drop_first();
        assert forall|x: i64| t1.to_set().contains(x) <==> c2.dom().contains(x) by {
            if t1.to_set().contains(x) {
                let i = choose|i: int| 0 <= i < t1.len() && t1[i] == x;
                assert(s1[i + 1] == x);
                assert(s1.to_set().contains(x));
            }
            if c2.dom().contains(x) {
                assert(s1.to_set().contains(x));
                let i = choose|i: int| 0 <= i < s1.len() && s1[i] == x;
                assert(t1[i - 1] == x);
            }
        }
        assert forall|x: i64| t2.to_set().contains(x) <==> c2.dom().contains(x) by {
            if t2.to_set().contains(x) {
                let i = choose|i: int| 0 <= i < t2.len() && t2[i] == x;
                assert(s2[i + 1] == x);
                assert(s2.to_set().contains(x));
            }
            if c2.dom().contains(x) {
                assert(s2.to_set().contains(x));
                let i = choose|i: int| 0 <= i < s2.len() && s2[i] == x;
                assert(t2[i - 1] == x);
            }
        }
        assert(t1.to_set() =~= c2.dom());
        assert(t2.to_set() =~= c2.dom());
        assert forall|i: int, j: int| 0 <= i < j < t1.len() implies key_lt(
            order_key(c2, #[trigger] t1[i]),
            order_key(c2, #[trigger] t1[j]),
        ) by {
            assert(key_lt(order_key(names, s1[i + 1]), order_key(names, s1[j + 1])));
            assert(t1.to_set().contains(t1[i]));
            assert(t1.to_set().contains(t1[j]));
        }
        assert forall|i: int, j: int| 0 <= i < j < t2.len() implies key_lt(
            order_key(c2, #[trigger] t2[i]),
            order_key(c2, #[trigger] t2[j]),
        ) by {
            assert(key_lt(order_key(names, s2[i + 1]), order_key(names, s2[j + 1])));
            assert(t2.to_set().contains(t2[i]));
            assert(t2.to_set().contains(t2[j]));
        }
        law_name_order_unique(c2, t1, t2);
        assert(s1 =~= seq![s1[0]] + t1);
        assert(s2 =~= seq![s2[0]] + t2);
        assert(s1 =~= s2);
    }
}

/// The identifiers of `pool` in name order, where `pool` pairs each
/// identifier of `names` once with its name.
pub fn sort_by_name(pool: Vec<(Vec<char>, i64)>, Ghost(names): Ghost<Map<i64, Seq<char>>>) -> (r: Vec<i64>)
    requires
        forall|i: int|
            0 <= i < pool@.len() ==> names.contains_key(#[trigger] pool@[i].1) && pool@[i].0@
                == names[pool@[i].1],
        forall|i: int, j: int| 0 <= i < j < pool@.len() ==> pool@[i].1 != pool@[j].1,
        forall|x: i64|
            names.contains_key(x) ==> exists|i: int| 0 <= i < pool@.len() && pool@[i].1 == x,
    ensures
        in_name_order(names, r@),
{
    let mut pool = pool;
    let mut out: Vec<i64> = Vec::new();
    while pool.len() > 0
        invariant
            forall|i: int|
                0 <= i < pool@.len() ==> names.contains_key(#[trigger] pool@[i].1) && pool@[i].0@ == names[pool@[i].1],
            forall|i: int, j: int| 0 <= i < j < pool@.len() ==> pool@[i].1 != pool@[j].1,
            out@.no_duplicates(),
            forall|i: int, j: int| 0 <= i < out@.len() && 0 <= j < pool@.len() ==> out@[i] != pool@[j].1,
            forall|x: i64|
                names.contains_key(x) <==> (out@.contains(x) || exists|i: int|
                    0 <= i < pool@.len() && pool@[i].1 == x),
            forall|i: int, j: int|
                0 <= i < j < out@.len() ==> key_lt(
                    order_key(names, #[trigger] out@[i]),
                    order_key(names, #[trigger] out@[j]),
                ),
            forall|i: int, j: int|
                0 <= i < out@.len() && 0 <= j < pool@.len() ==> key_lt(
                    order_key(names, #[trigger] out@[i]),
                    order_key(names, #[trigger] pool@[j].1),
                ),
        decreases pool@.len(),
    {
        let mut best: usize = 0;
        let mut i: usize = 1;
        while i < pool.len()
            invariant
                0 <= best < pool@.len(),
                1 <= i <= pool@.len(),
                best < i,
                forall|x: int| 0 <= x < pool@.len() ==> names.contains_key(#[trigger] pool@[x].1) && pool@[x].0@ == names[pool@[x].1],
                forall|x: int, y: int| 0 <= x < y < pool@.len() ==> pool@[x].1 != pool@[y].1,
                forall|x: int|
                    0 <= x < i && x != best ==> key_lt(
                        order_key(names, pool@[best as int].1),
                        order_key(names, #[trigger] pool@[x].1),
                    ),
            decreases pool@.len() - i,
        {
            let less = chars_less(&pool[i].0, &pool[best].0);
            let same = !less && !chars_less(&pool[best].0, &pool[i].0);
            proof {
                let a = order_key(names, pool@[i as int].1);
                let b = order_key(names, pool@[best as int].1);
                if same && a.0 != b.0 {
                    lemma_chars_lt_total(a.0, b.0);
                }
            }
            if less || (same && pool[i].1 < pool[best].1) {
                proof {
                    let a = order_key(names, pool@[i as int].1);
                    let b = order_key(names, pool@[best as int].1);
                    if !less {
                        assert(a.0 == b.0);
                    }
                    assert(key_lt(a, b));
                    assert forall|x: int| 0 <= x < i + 1 && x != i implies key_lt(
                        a,
                        order_key(names, #[trigger] pool@[x].1),
                    ) by {
                        if x != best {
                            lemma_key_lt_transitive(a, b, order_key(names, pool@[x].1));
                        }
                    }
                }
                best = i;
            } else {
                proof {
                    let a = order_key(names, pool@[i as int].1);
                    let b = order_key(names, pool@[best as int].1);
                    assert(pool@[i as int].1 != pool@[best as int].1);
                    if same {
                        assert(a.0 == b.0);
                    }
                    assert(key_lt(b, a));
                }
            }
            i = i + 1;
        }
        let ghost before = pool@;
        let ghost out0 = out@;
        let entry = pool.remove(best);
        out.push(entry.1);
        proof {
            let m = entry.1;
            assert(m == before[best as int].1);
            assert forall|x: int| 0 <= x < pool@.len() implies pool@[x] == if x < best {
                before[x]
            } else {
                before[x + 1]
            } by {}
            assert forall|x: int, y: int| 0 <= x < y < pool@.len() implies pool@[x].1 != pool@[y].1 by {
                let xx = if x < best { x } else { x + 1 };
                let yy = if y < best { y } else { y + 1 };
                assert(before[xx].1 != before[yy].1);
            }
            assert forall|x: int| 0 <= x < out@.len() - 1 implies out@[x] != m by {
                assert(out0[x] != before[best as int].1);
            }
            assert(out@.no_duplicates()) by {
                assert forall|x: int, y: int| 0 <= x < y < out@.len() implies out@[x] != out@[y] by {
                    if y < out@.len() - 1 {
                        assert(out0[x] != out0[y]);
                    }
                }
            }
            assert forall|x: int, y: int| 0 <= x < out@.len() && 0 <= y < pool@.len() implies out@[x] != pool@[y].1 by {
                let yy = if y < best { y } else { y + 1 };
                if x < out@.len() - 1 {
                    assert(out0[x] != before[yy].1);
                } else {
                    assert(before[best as int].1 != before[yy].1);
                }
            }
            assert forall|z: i64| names.contains_key(z) <==> (out@.contains(z) || exists|x: int|
                0 <= x < pool@.len() && pool@[x].1 == z) by {
                if names.contains_key(z) {
                    if out0.contains(z) {
                        let x = choose|x: int| 0 <= x < out0.len() && out0[x] == z;
                        assert(out@[x] == z);
                    } else {
                        let x = choose|x: int| 0 <= x < before.len() && before[x].1 == z;
                        if x == best {
                            assert(out@[out@.len() - 1] == z);
                        } else if x < best {
                            assert(pool@[x].1 == z);
                        } else {
                            assert(pool@[x - 1].1 == z);
                        }
                    }
                }
                if out@.contains(z) {
                    let x = choose|x: int| 0 <= x < out@.len() && out@[x] == z;
                    if x < out@.len() - 1 {
                        assert(out0.contains(z));
                    }
                }
                if exists|x: int| 0 <= x < pool@.len() && pool@[x].1 == z {
                    let x = choose|x: int| 0 <= x < pool@.len() && pool@[x].1 == z;
                    let xx = if x < best { x } else { x + 1 };
                    assert(before[xx].1 == z);
                }
            }
            assert forall|x: int, y: int| 0 <= x < y < out@.len() implies key_lt(
                order_key(names, #[trigger] out@[x]),
                order_key(names, #[trigger] out@[y]),
            ) by {
                if y == out@.len() - 1 {
                    assert(key_lt(order_key(names, out0[x]), order_key(names, before[best as int].1)));
                } else {
                    assert(key_lt(order_key(names, out0[x]), order_key(names, out0[y])));
                }
            }
            assert forall|x: int, y: int| 0 <= x < out@.len() && 0 <= y < pool@.len() implies key_lt(
                order_key(names, #[trigger] out@[x]),
                order_key(names, #[trigger] pool@[y].1),
            ) by {
                let yy = if y < best { y } else { y + 1 };
                if x == out@.len() - 1 {
                    assert(key_lt(order_key(names, before[best as int].1), order_key(names, before[yy].1)));
                } else {
                    assert(key_lt(order_key(names, out0[x]), order_key(names, before[yy].1)));
                }
            }
        }
    }
    proof {
        assert forall|z: i64| out@.to_set().contains(z) <==> names.dom().contains(z) by {}
        assert(out@.to_set() =~= names.dom());
    }
    out
}

} // verus!
