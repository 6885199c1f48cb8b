use vstd::prelude::*;
use crate::graph::Graph;

verus! {

/// A walk through the graph: at least one node, and an edge between every
/// pair of consecutive nodes.
pub open spec fn is_path(g: Graph, p: Seq<usize>) -> bool {
    p.len() >= 1 && (forall|i: int| 0 <= i < p.len() - 1 ==> g.edge(#[trigger] p[i], p[i + 1]))
}

/// Whether a path of exactly `k` edges leads from `s` to `t`.
pub open spec fn has_path(g: Graph, s: usize, t: usize, k: nat) -> bool {
    exists|p: Seq<usize>|
        is_path(g, p) && p.len() == k + 1 && p[0] == s && p.last() == t
}

/// Whether `t` can be reached from `s` by some path. Every node reaches
/// itself by the empty walk, whether or not the graph knows it.
pub open spec fn reachable(g: Graph, s: usize, t: usize) -> bool {
    exists|k: nat| has_path(g, s, t, k)
}

/// `k` is the exact shortest-path distance from `s` to `t`: some path of `k`
/// edges exists and none shorter does.
pub open spec fn shortest(g: Graph, s: usize, t: usize, k: nat) -> bool {
    has_path(g, s, t, k) && (forall|j: nat| j < k ==> !has_path(g, s, t, j))
}

/// The shortest-path distance from `s` to `t`; meaningful only when `t` is
/// reachable from `s`.
pub open spec fn sdist(g: Graph, s: usize, t: usize) -> nat {
    choose|k: nat| shortest(g, s, t, k)
}

/// The one-node walk gives every node a zero-length path to itself.
pub proof fn lemma_self_path(g: Graph, s: usize)
    ensures
        has_path(g, s, s, 0),
        reachable(g, s, s),
{
    let p = seq![s];
    assert(is_path(g, p));
    assert(p.last() == s);
    assert(has_path(g, s, s, 0));
}

/// A zero-length path connects a node only to itself.
pub proof fn lemma_path_zero(g: Graph, s: usize, t: usize)
    requires
        has_path(g, s, t, 0),
    ensures
        s == t,
{
    let p = choose|p: Seq<usize>|
        is_path(g, p) && p.len() == 0 + 1 && p[0] == s && p.last() == t;
    assert(p.last() == p[0]);
}

/// Appending an edge to a path extends it by one step.
pub proof fn lemma_path_extend(g: Graph, s: usize, t: usize, k: nat, w: usize)
    requires
        has_path(g, s, t, k),
        g.edge(t, w),
    ensures
        has_path(g, s, w, k + 1),
{
    let p = choose|p: Seq<usize>|
        is_path(g, p) && p.len() == k + 1 && p[0] == s && p.last() == t;
    let q = p.push(w);
    assert(is_path(g, q)) by {
        assert forall|i: int| 0 <= i < q.len() - 1 implies g.edge(#[trigger] q[i], q[i + 1]) by {
            if i < k {
                assert(q[i] == p[i] && q[i + 1] == p[i + 1]);
            } else {
                assert(q[i] == p.last() && q[i + 1] == w);
            }
        }
    }
    assert(q.len() == (k + 1) + 1 && q[0] == s && q.last() == w);
}

/// A path of positive length decomposes into a path one step shorter plus a
/// final edge; returns the next-to-last node.
pub proof fn lemma_path_decompose(g: Graph, s: usize, t: usize, k: nat) -> (w: usize)
    requires
        k >= 1,
        has_path(g, s, t, k),
    ensures
        g.edge(w, t),
        has_path(g, s, w, (k - 1) as nat),
{
    let p = choose|p: Seq<usize>|
        is_path(g, p) && p.len() == k + 1 && p[0] == s && p.last() == t;
    let q = p.drop_last();
    let w = p[k - 1];
    assert(is_path(g, q)) by {
        assert forall|i: int| 0 <= i < q.len() - 1 implies g.edge(#[trigger] q[i], q[i + 1]) by {
            assert(q[i] == p[i] && q[i + 1] == p[i + 1]);
        }
    }
    assert(g.edge(p[k - 1], p[k as int]));
    assert(p.last() == p[k as int]);
    assert(q.len() == (k - 1) + 1 && q[0] == s && q.last() == w);
    assert(has_path(g, s, w, (k - 1) as nat));
    w
}

/// Wherever some path exists, a shortest one exists.
pub proof fn lemma_shortest_exists(g: Graph, s: usize, t: usize, k: nat)
    requires
        has_path(g, s, t, k),
    ensures
        exists|j: nat| j <= k && shortest(g, s, t, j),
    decreases k,
{
    if forall|j: nat| j < k ==> !has_path(g, s, t, j) {
        assert(shortest(g, s, t, k));
    } else {
        let j = choose|j: nat| j < k && has_path(g, s, t, j);
        lemma_shortest_exists(g, s, t, j);
    }
}

/// The shortest-path distance is unique.
pub proof fn lemma_shortest_unique(g: Graph, s: usize, t: usize, k1: nat, k2: nat)
    requires
        shortest(g, s, t, k1),
        shortest(g, s, t, k2),
    ensures
        k1 == k2,
{
}

/// For a reachable target, `sdist` names the distance that `shortest`
/// describes.
pub proof fn lemma_sdist_shortest(g: Graph, s: usize, t: usize)
    requires
        reachable(g, s, t),
    ensures
        shortest(g, s, t, sdist(g, s, t)),
{
    let k = choose|k: nat| has_path(g, s, t, k);
    lemma_shortest_exists(g, s, t, k);
    let j = choose|j: nat| j <= k && shortest(g, s, t, j);
    assert(shortest(g, s, t, j));
}

} // verus!
