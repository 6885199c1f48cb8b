use vstd::prelude::*;
use crate::graph::Graph;
use crate::paths::{has_path, reachable, shortest, lemma_self_path, lemma_path_zero,
    lemma_path_extend, lemma_path_decompose};

verus! {

/// Whether `x` occurs as a key in a sequence of `(node, distance)` pairs.
pub open spec fn key_in(ps: Seq<(usize, usize)>, x: usize) -> bool {
    exists|i: int| 0 <= i < ps.len() && (#[trigger] ps[i]).0 == x
}

/// The position of key `x` in the pair sequence.
pub open spec fn key_index(ps: Seq<(usize, usize)>, x: usize) -> int {
    choose|i: int| 0 <= i < ps.len() && (#[trigger] ps[i]).0 == x
}

/// The distance recorded for key `x`.
pub open spec fn val_of(ps: Seq<(usize, usize)>, x: usize) -> usize {
    ps[key_index(ps, x)].1
}

/// No node occurs twice as a key.
pub open spec fn keys_distinct(ps: Seq<(usize, usize)>) -> bool {
    forall|i: int, j: int|
        0 <= i < ps.len() && 0 <= j < ps.len() && i != j ==> (#[trigger] ps[i]).0 != (
        #[trigger] ps[j]).0
}

/// With distinct keys, each entry is what the key lookup finds.
pub proof fn lemma_key_val(ps: Seq<(usize, usize)>, i: int)
    requires
        keys_distinct(ps),
        0 <= i < ps.len(),
    ensures
        key_in(ps, ps[i].0),
        key_index(ps, ps[i].0) == i,
        val_of(ps, ps[i].0) == ps[i].1,
{
    assert(key_in(ps, ps[i].0));
    let j = key_index(ps, ps[i].0);
    assert(0 <= j < ps.len() && ps[j].0 == ps[i].0);
}

/// Appending a fresh key leaves every existing lookup unchanged.
pub proof fn lemma_val_push(ps: Seq<(usize, usize)>, np: (usize, usize), x: usize)
    requires
        keys_distinct(ps),
        !key_in(ps, np.0),
        key_in(ps, x),
    ensures
        key_in(ps.push(np), x),
        val_of(ps.push(np), x) == val_of(ps, x),
        keys_distinct(ps.push(np)),
{
    let i = key_index(ps, x);
    assert(0 <= i < ps.len() && ps[i].0 == x);
    let qs = ps.push(np);
    assert(qs[i] == ps[i]);
    assert(key_in(qs, x));
    assert(keys_distinct(qs)) by {
        assert forall|a: int, b: int|
            0 <= a < qs.len() && 0 <= b < qs.len() && a != b implies (#[trigger] qs[a]).0 != (
        #[trigger] qs[b]).0 by {
            if a < ps.len() && b < ps.len() {
            } else if a < ps.len() {
                assert(qs[b] == np && qs[a] == ps[a]);
                assert(key_in(ps, ps[a].0));
            } else {
                assert(qs[a] == np && qs[b] == ps[b]);
                assert(key_in(ps, ps[b].0));
            }
        }
    }
    let j = key_index(qs, x);
    assert(0 <= j < qs.len() && qs[j].0 == x);
    assert(np.0 != x);
    assert(j < ps.len());
    assert(qs[j] == ps[j]);
}

/// A node that a dequeued entry owns has had all its neighbours recorded,
/// each at most one level further out.
pub open spec fn processed(g: Graph, vis: Seq<(usize, usize)>, i: int) -> bool {
    forall|w: usize|
        #[trigger] g.edge(vis[i].0, w) ==> key_in(vis, w) && val_of(vis, w) as int <= vis[i].1
            + 1
}

/// The loop invariant of the breadth-first traversal: the recorded pairs
/// start at `(start, 0)`, keys are distinct, recorded distances are realised
/// by paths, levels are non-decreasing with a window of width one around the
/// queue front, and everything before the front is fully processed.
pub open spec fn bfs_inv(g: Graph, start: usize, vis: Seq<(usize, usize)>, qi: int) -> bool {
    &&& 0 <= qi <= vis.len()
    &&& vis.len() >= 1
    &&& vis[0] == (start, 0usize)
    &&& keys_distinct(vis)
    &&& forall|i: int| 1 <= i < vis.len() ==> g.has_node((#[trigger] vis[i]).0)
    &&& forall|i: int| 0 <= i < vis.len() ==> (#[trigger] vis[i]).1 <= i
    &&& forall|i: int, j: int|
        0 <= i <= j < vis.len() ==> (#[trigger] vis[i]).1 <= (#[trigger] vis[j]).1
    &&& (qi < vis.len() ==> forall|i: int|
        0 <= i < vis.len() ==> (#[trigger] vis[i]).1 <= vis[qi].1 + 1)
    &&& forall|i: int|
        0 <= i < vis.len() ==> has_path(g, start, (#[trigger] vis[i]).0, vis[i].1 as nat)
    &&& forall|i: int| 0 <= i < qi ==> processed(g, vis, i)
}

/// Once every recorded entry is processed, any path into the graph ends at a
/// recorded node whose recorded distance the path cannot beat.
proof fn lemma_bfs_optimal(g: Graph, start: usize, vis: Seq<(usize, usize)>, t: usize, k: nat)
    requires
        vis.len() >= 1,
        vis[0] == (start, 0usize),
        keys_distinct(vis),
        forall|i: int| 0 <= i < vis.len() ==> processed(g, vis, i),
        has_path(g, start, t, k),
    ensures
        key_in(vis, t),
        val_of(vis, t) as int <= k,
    decreases k,
{
    if k == 0 {
        lemma_path_zero(g, start, t);
        lemma_key_val(vis, 0);
    } else {
        let w = lemma_path_decompose(g, start, t, k);
        lemma_bfs_optimal(g, start, vis, w, (k - 1) as nat);
        let iw = key_index(vis, w);
        assert(0 <= iw < vis.len() && vis[iw].0 == w);
        assert(processed(g, vis, iw));
        assert(g.edge(vis[iw].0, t));
        assert(val_of(vis, t) as int <= vis[iw].1 + 1);
    }
}

/// Distinct recorded keys that all name nodes of the graph are no more
/// numerous than the nodes.
proof fn lemma_visited_bound(g: Graph, vis: Seq<(usize, usize)>, start: usize)
    requires
        g.wf(),
        keys_distinct(vis),
        vis.len() >= 1,
        vis[0].0 == start,
        forall|i: int| 1 <= i < vis.len() ==> g.has_node((#[trigger] vis[i]).0),
    ensures
        vis.len() <= g.nodes@.len() + 1,
        g.has_node(start) ==> vis.len() <= g.nodes@.len(),
{
    let ks = vis.map_values(|p: (usize, usize)| p.0);
    assert(ks.no_duplicates()) by {
        assert forall|i: int, j: int|
            0 <= i < ks.len() && 0 <= j < ks.len() && i != j implies ks[i] != ks[j] by {
            assert(ks[i] == vis[i].0 && ks[j] == vis[j].0);
        }
    }
    ks.unique_seq_to_set();
    g.nodes@.unique_seq_to_set();
    broadcast use vstd::seq_lib::seq_to_set_is_finite;

    let target = g.nodes@.to_set().insert(start);
    assert(ks.to_set().subset_of(target)) by {
        assert forall|x: usize| ks.to_set().contains(x) implies target.contains(x) by {
            let i = choose|i: int| 0 <= i < ks.len() && ks[i] == x;
            assert(ks[i] == vis[i].0);
            if i >= 1 {
                assert(g.has_node(vis[i].0));
                assert(g.nodes@.to_set().contains(x));
            }
        }
    }
    vstd::set_lib::lemma_len_subset(ks.to_set(), target);
    if g.has_node(start) {
        assert(target =~= g.nodes@.to_set());
    }
}

/// Everything the breadth-first traversal promises of its result: a
/// duplicate-free association list holding exactly the nodes reachable from
/// `start` (always including `start` itself at distance zero), each mapped to
/// its exact shortest-path distance; recorded distances never exceed the
/// entry's position, every entry but the first names a node of the graph,
/// and when `start` is itself a node the list is no longer than the node
/// count.
pub open spec fn bfs_post(g: Graph, start: usize, r: Seq<(usize, usize)>) -> bool {
    &&& keys_distinct(r)
    &&& r.len() >= 1 && r[0] == (start, 0usize)
    &&& (forall|t: usize| #[trigger] key_in(r, t) <==> reachable(g, start, t))
    &&& (forall|i: int| 0 <= i < r.len() ==> shortest(g, start, (#[trigger] r[i]).0, r[i].1 as nat))
    &&& (forall|i: int| 0 <= i < r.len() ==> (#[trigger] r[i]).1 <= i)
    &&& (forall|i: int| 1 <= i < r.len() ==> g.has_node((#[trigger] r[i]).0))
    &&& (g.has_node(start) ==> r.len() <= g.nodes@.len())
}

/// Single-source shortest-path distances by breadth-first traversal, with
/// the contract that `bfs_post` states.
#[verifier::rlimit(60)]
pub fn bfs_distances(g: &Graph, start: usize) -> (r: Vec<(usize, usize)>)
    requires
        g.wf(),
    ensures
        bfs_post(*g, start, r@),
{
    let mut visited: Vec<(usize, usize)> = Vec::new();
    visited.push((start, 0));
    proof {
        lemma_self_path(*g, start);
    }
    let mut qi: usize = 0;
    while qi < visited.len()
        invariant
            g.wf(),
            bfs_inv(*g, start, visited@, qi as int),
        decreases g.nodes@.len() + 1 - visited@.len(), visited@.len() - qi,
    {
        let current = visited[qi].0;
        let d = visited[qi].1;
        let ghost pre = visited@;
        match g.neighbors(current) {
            Some(ns) => {
                let mut j: usize = 0;
                while j < ns.len()
                    invariant
                        g.wf(),
                        bfs_inv(*g, start, visited@, qi as int),
                        qi < visited@.len(),
                        visited@[qi as int] == (current, d),
                        ns@.to_set() == g.nbrs(current),
                        j <= ns@.len(),
                        pre.is_prefix_of(visited@),
                        forall|m: int|
                            0 <= m < j ==> key_in(visited@, #[trigger] ns@[m]) && val_of(
                                visited@,
                                ns@[m],
                            ) as int <= d + 1,
                    decreases ns@.len() - j,
                {
                    let w = ns[j];
                    proof {
                        assert(ns@.to_set().contains(w));
                        assert(g.edge(current, w));
                        assert(g.edge(w, current));
                    }
                    if dist_lookup(&visited, w).is_none() {
                        let ghost np: (usize, usize) = (w, (d + 1) as usize);
                        proof {
                            lemma_path_extend(*g, start, current, d as nat, w);
                            lemma_visited_bound(*g, visited@, start);
                            let vs2 = visited@.push(np);
                            assert forall|i: int|
                                0 <= i < qi implies processed(*g, vs2, i) by {
                                assert(processed(*g, visited@, i));
                                assert(vs2[i] == visited@[i]);
                                assert forall|y: usize| #[trigger] g.edge(vs2[i].0, y) implies
                                    key_in(vs2, y) && val_of(vs2, y) as int <= vs2[i].1 + 1 by {
                                    assert(g.edge(visited@[i].0, y));
                                    lemma_val_push(visited@, np, y);
                                }
                            }
                            lemma_key_val(vs2, visited@.len() as int);
                            assert forall|m: int|
                                0 <= m < j implies key_in(vs2, #[trigger] ns@[m]) && val_of(
                                vs2,
                                ns@[m],
                            ) as int <= d + 1 by {
                                lemma_val_push(visited@, np, ns@[m]);
                            }
                        }
                        visited.push((w, d + 1));
                    }
                    j += 1;
                }
                proof {
                    assert forall|y: usize| g.edge(current, y) implies key_in(visited@, y)
                        && (#[trigger] val_of(visited@, y)) as int <= d + 1 by {
                        assert(g.nbrs(current).contains(y));
                        assert(ns@.to_set().contains(y));
                        let m = choose|m: int| 0 <= m < ns@.len() && ns@[m] == y;
                        assert(key_in(visited@, ns@[m]));
                    }
                    assert(processed(*g, visited@, qi as int));
                }
            }
            None => {
                proof {
                    assert(g.nbrs(current) =~= Set::<usize>::empty());
                    assert forall|y: usize| g.edge(current, y) implies key_in(visited@, y)
                        && (#[trigger] val_of(visited@, y)) as int <= d + 1 by {
                        assert(g.nbrs(current).contains(y));
                    }
                    assert(processed(*g, visited@, qi as int));
                }
            }
        }
        proof {
            lemma_visited_bound(*g, visited@, start);
        }
        qi += 1;
    }
    proof {
        assert forall|t: usize| #[trigger] key_in(visited@, t) <==> reachable(
            *g,
            start,
            t,
        ) by {
            if key_in(visited@, t) {
                let i = key_index(visited@, t);
                assert(0 <= i < visited@.len() && visited@[i].0 == t);
                assert(has_path(*g, start, t, visited@[i].1 as nat));
            }
            if reachable(*g, start, t) {
                let k = choose|k: nat| has_path(*g, start, t, k);
                lemma_bfs_optimal(*g, start, visited@, t, k);
            }
        }
        assert forall|i: int| 0 <= i < visited@.len() implies shortest(
            *g,
            start,
            (#[trigger] visited@[i]).0,
            visited@[i].1 as nat,
        ) by {
            lemma_key_val(visited@, i);
            assert forall|jj: nat| jj < visited@[i].1 as nat implies !has_path(
                *g,
                start,
                visited@[i].0,
                jj,
            ) by {
                if has_path(*g, start, visited@[i].0, jj) {
                    lemma_bfs_optimal(*g, start, visited@, visited@[i].0, jj);
                }
            }
        }
        lemma_visited_bound(*g, visited@, start);
    }
    visited
}

/// Looks a node up in a duplicate-free `(node, distance)` list, as BFS
/// returns it: the recorded distance, or `None` when the node is absent.
pub fn dist_lookup(dists: &Vec<(usize, usize)>, node: usize) -> (r: Option<usize>)
    requires
        keys_distinct(dists@),
    ensures
        key_in(dists@, node) ==> r == Some(val_of(dists@, node)),
        !key_in(dists@, node) ==> r is None,
{
    let mut i: usize = 0;
    while i < dists.len()
        invariant
            keys_distinct(dists@),
            i <= dists@.len(),
            forall|k: int| 0 <= k < i ==> (#[trigger] dists@[k]).0 != node,
        decreases dists@.len() - i,
    {
        if dists[i].0 == node {
            proof {
                lemma_key_val(dists@, i as int);
            }
            return Some(dists[i].1);
        }
        i += 1;
    }
    proof {
        if key_in(dists@, node) {
            let k = key_index(dists@, node);
            assert(0 <= k < dists@.len() && dists@[k].0 == node);
        }
    }
    None
}

} // verus!
