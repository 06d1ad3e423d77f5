//! Facts about walks through a graph.

use crate::dag::{Dag, NodeId};
use vstd::prelude::*;

verus! {

/// A walk followed by one more edge is a walk.
pub proof fn lemma_walk_push<T: Ord>(g: &Dag<T>, w: Seq<NodeId>, c: NodeId)
    requires
        g.is_walk(w),
        g.edge(w.last(), c),
    ensures
        g.is_walk(w.push(c)),
        w.push(c)[0] == w[0],
        w.push(c).last() == c,
{
    let x = w.push(c);
    assert forall|k: int| 0 <= k < x.len() - 1 implies #[trigger] g.edge(x[k], x[k + 1]) by {
        if k < w.len() - 1 {
            assert(x[k] == w[k] && x[k + 1] == w[k + 1]);
        }
    }
}

/// A node reaches each child of every node it reaches.
pub proof fn lemma_reaches_step<T: Ord>(g: &Dag<T>, u: NodeId, v: NodeId, c: NodeId)
    requires
        g.reaches(u, v),
        g.edge(v, c),
    ensures
        g.reaches(u, c),
{
    let w = choose|w: Seq<NodeId>| #[trigger] g.is_walk(w) && w[0] == u && w.last() == v;
    lemma_walk_push(g, w, c);
}

/// Every node reaches itself.
pub proof fn lemma_reaches_self<T: Ord>(g: &Dag<T>, u: NodeId)
    ensures
        g.reaches(u, u),
{
    let w = seq![u];
    assert(g.is_walk(w));
}

/// A walk that starts in a set of nodes closed under edges stays in it.
pub proof fn lemma_closed_walk<T: Ord>(g: &Dag<T>, marks: Seq<bool>, w: Seq<NodeId>)
    requires
        g.is_walk(w),
        marks.len() == g.nodes.len(),
        (w[0] as int) < marks.len(),
        marks[w[0] as int],
        forall|u: NodeId, c: NodeId|
            (u as int) < marks.len() && marks[u as int] && #[trigger] g.edge(u, c) ==> (c as int)
                < marks.len() && marks[c as int],
    ensures
        (w.last() as int) < marks.len(),
        marks[w.last() as int],
    decreases w.len(),
{
    if w.len() > 1 {
        let p = w.drop_last();
        assert(g.is_walk(p)) by {
            assert forall|k: int| 0 <= k < p.len() - 1 implies #[trigger] g.edge(p[k], p[k + 1]) by {
                assert(g.edge(w[k], w[k + 1]));
            }
        }
        lemma_closed_walk(g, marks, p);
        assert(g.edge(w[w.len() - 2], w[w.len() - 2 + 1]));
        assert(p.last() == w[w.len() - 2]);
    }
}

/// A sequence of distinct handles, each below `n`, has at most `n` members.
pub proof fn lemma_distinct_len(s: Seq<NodeId>, n: nat)
    requires
        s.no_duplicates(),
        forall|k: int| 0 <= k < s.len() ==> (#[trigger] s[k] as nat) < n,
    ensures
        s.len() <= n,
{
    let t = s.map_values(|x: NodeId| x as int);
    assert(t.no_duplicates()) by {
        assert forall|i: int, j: int| 0 <= i < t.len() && 0 <= j < t.len() && i != j implies t[i]
            != t[j] by {
            assert(s[i] != s[j]);
        }
    }
    t.unique_seq_to_set();
    vstd::set_lib::lemma_int_range(0, n as int);
    assert(t.to_set().subset_of(vstd::set_lib::set_int_range(0, n as int))) by {
        assert forall|x: int| t.to_set().contains(x) implies vstd::set_lib::set_int_range(
            0,
            n as int,
        ).contains(x) by {
            let k = choose|k: int| 0 <= k < t.len() && t[k] == x;
            assert((s[k] as nat) < n);
        }
    }
    vstd::set_lib::lemma_len_subset(t.to_set(), vstd::set_lib::set_int_range(0, n as int));
}

/// A non-empty prefix of a walk is a walk.
pub proof fn lemma_walk_prefix<T: Ord>(g: &Dag<T>, w: Seq<NodeId>, m: int)
    requires
        g.is_walk(w),
        1 <= m <= w.len(),
    ensures
        g.is_walk(w.take(m)),
{
    let p = w.take(m);
    assert forall|k: int| 0 <= k < p.len() - 1 implies #[trigger] g.edge(p[k], p[k + 1]) by {
        assert(g.edge(w[k], w[k + 1]));
    }
}

/// Every node on a walk from a node of the arena is in the arena.
pub proof fn lemma_walk_in_arena<T: Ord>(g: &Dag<T>, w: Seq<NodeId>)
    requires
        g.wf(),
        g.is_walk(w),
        (w[0] as int) < g.nodes.len(),
    ensures
        forall|k: int| 0 <= k < w.len() ==> (#[trigger] w[k] as nat) < g.nodes.len(),
{
    assert forall|k: int| 0 <= k < w.len() implies (#[trigger] w[k] as nat) < g.nodes.len() by {
        if k > 0 {
            assert(g.edge(w[k - 1], w[k - 1 + 1]));
            assert(g.children_of(w[k - 1] as int).contains(w[k]));
        }
    }
}

/// A walk to `b` followed by a walk from `b` is a walk.
pub proof fn lemma_reaches_trans<T: Ord>(g: &Dag<T>, a: NodeId, b: NodeId, c: NodeId)
    requires
        g.reaches(a, b),
        g.reaches(b, c),
    ensures
        g.reaches(a, c),
{
    let w1 = choose|w: Seq<NodeId>| #[trigger] g.is_walk(w) && w[0] == a && w.last() == b;
    let w2 = choose|w: Seq<NodeId>| #[trigger] g.is_walk(w) && w[0] == b && w.last() == c;
    let w = w1 + w2.drop_first();
    let m = w1.len() as int;
    assert forall|k: int| 0 <= k < w.len() - 1 implies #[trigger] g.edge(w[k], w[k + 1]) by {
        if k < m - 1 {
            assert(w[k] == w1[k] && w[k + 1] == w1[k + 1]);
            assert(g.edge(w1[k], w1[k + 1]));
        } else if k == m - 1 {
            assert(w[k] == w2[0] && w[k + 1] == w2[1]);
            assert(g.edge(w2[0int], w2[0int + 1]));
        } else {
            let t = k - m + 1;
            assert(w[k] == w2[t] && w[k + 1] == w2[t + 1]);
            assert(g.edge(w2[t], w2[t + 1]));
        }
    }
    assert(w.last() == c) by {
        if w2.len() > 1 {
            assert(w.last() == w2.drop_first().last());
        }
    }
    assert(g.is_walk(w) && w[0] == a);
}

/// A stretch of a walk is a walk.
pub proof fn lemma_walk_stretch<T: Ord>(g: &Dag<T>, w: Seq<NodeId>, i: int, j: int)
    requires
        g.is_walk(w),
        0 <= i <= j < w.len(),
    ensures
        g.is_walk(w.subrange(i, j + 1)),
{
    let s = w.subrange(i, j + 1);
    assert forall|k: int| 0 <= k < s.len() - 1 implies #[trigger] g.edge(s[k], s[k + 1]) by {
        assert(g.edge(w[i + k], w[i + k + 1]));
    }
}

} // verus!
