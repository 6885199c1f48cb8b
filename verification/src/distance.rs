use vstd::prelude::*;
use crate::graph::Graph;
use crate::paths::{reachable, sdist, shortest, lemma_self_path, lemma_path_zero,
    lemma_sdist_shortest, lemma_shortest_unique};
use crate::bfs::{bfs_distances, bfs_post, dist_lookup, key_in, key_index, val_of, lemma_key_val};
use crate::rank::{sorted_desc, dens_positive, sort_by_score_desc};

verus! {

/// What the ordered pair `(s, t)` adds to distance totals: the
/// shortest-path distance when `t` is reachable from `s` and distinct from
/// it, and nothing otherwise (self-distances are zero, unreachable pairs are
/// absent).
pub open spec fn pair_dist(g: Graph, s: usize, t: usize) -> int {
    if reachable(g, s, t) && t != s {
        sdist(g, s, t) as int
    } else {
        0
    }
}

/// Sum of `pair_dist(g, s, -)` over the first `j` nodes of the graph.
pub open spec fn row_sum(g: Graph, s: usize, j: int) -> int
    decreases j,
{
    if j <= 0 {
        0
    } else {
        row_sum(g, s, j - 1) + pair_dist(g, s, g.nodes@[j - 1])
    }
}

/// How many of the first `j` nodes lie at a strictly positive distance from
/// `s`.
pub open spec fn row_cnt(g: Graph, s: usize, j: int) -> int
    decreases j,
{
    if j <= 0 {
        0
    } else {
        row_cnt(g, s, j - 1) + if reachable(g, s, g.nodes@[j - 1]) && g.nodes@[j - 1] != s {
            1int
        } else {
            0int
        }
    }
}

/// How many of the first `j` nodes are reachable from `s`, `s` itself
/// included.
pub open spec fn reach_cnt(g: Graph, s: usize, j: int) -> int
    decreases j,
{
    if j <= 0 {
        0
    } else {
        reach_cnt(g, s, j - 1) + if reachable(g, s, g.nodes@[j - 1]) {
            1int
        } else {
            0int
        }
    }
}

/// Sum of `row_sum` over the first `i` start nodes: the total of all
/// positive pairwise distances, each ordered reachable pair counted once.
pub open spec fn total_sum(g: Graph, i: int) -> int
    decreases i,
{
    if i <= 0 {
        0
    } else {
        total_sum(g, i - 1) + row_sum(g, g.nodes@[i - 1], g.nodes@.len() as int)
    }
}

/// Sum of `row_cnt` over the first `i` start nodes: how many ordered pairs
/// of distinct nodes are connected by a path.
pub open spec fn total_cnt(g: Graph, i: int) -> int
    decreases i,
{
    if i <= 0 {
        0
    } else {
        total_cnt(g, i - 1) + row_cnt(g, g.nodes@[i - 1], g.nodes@.len() as int)
    }
}

/// The sum of shortest-path distances from `s` to everything it reaches.
pub open spec fn dist_sum(g: Graph, s: usize) -> int {
    row_sum(g, s, g.nodes@.len() as int)
}

/// The closeness centrality of `s` as an exact rational: the size of its
/// reachable set minus one, over the sum of its distances; `0/1` for a node
/// that reaches nothing but itself.
pub open spec fn closeness_of(g: Graph, s: usize) -> (u64, u64) {
    if dist_sum(g, s) > 0 {
        ((reach_cnt(g, s, g.nodes@.len() as int) - 1) as u64, dist_sum(g, s) as u64)
    } else {
        (0u64, 1u64)
    }
}

/// Every node of the graph paired with its closeness centrality, in node
/// insertion order.
pub open spec fn closeness_seq(g: Graph) -> Seq<(usize, (u64, u64))> {
    Seq::new(g.nodes@.len(), |i: int| (g.nodes@[i], closeness_of(g, g.nodes@[i])))
}

/// The per-row counters never go negative.
proof fn lemma_counts_nonneg(g: Graph, s: usize, j: int)
    ensures
        row_sum(g, s, j) >= 0,
        row_cnt(g, s, j) >= 0,
        reach_cnt(g, s, j) >= 0,
    decreases (if j <= 0 { 0int } else { j }),
{
    if j > 0 {
        lemma_counts_nonneg(g, s, j - 1);
    }
}

/// Once the prefix covers some position holding `s`, the reachable count is
/// at least one: `s` reaches itself.
proof fn lemma_reach_cnt_pos(g: Graph, s: usize, j: int, k: int)
    requires
        0 <= k < j <= g.nodes@.len(),
        g.nodes@[k] == s,
    ensures
        reach_cnt(g, s, j) >= 1,
    decreases j,
{
    lemma_self_path(g, s);
    lemma_counts_nonneg(g, s, j - 1);
    if j - 1 > k {
        lemma_reach_cnt_pos(g, s, j - 1, k);
    }
}

/// Runs one breadth-first traversal from `s` and folds its distance map over
/// the node list: the distance total, the count of nodes at positive
/// distance, and the count of reachable nodes including `s` itself.
fn bfs_row(g: &Graph, s: usize) -> (r: (u64, u64, u64))
    requires
        g.wf(),
        g.has_node(s),
        g.nodes@.len() < 0x8000_0000,
    ensures
        r.0 == row_sum(*g, s, g.nodes@.len() as int),
        r.1 == row_cnt(*g, s, g.nodes@.len() as int),
        r.2 == reach_cnt(*g, s, g.nodes@.len() as int),
        r.0 <= (g.nodes@.len() as int) * (g.nodes@.len() as int),
        r.1 <= g.nodes@.len(),
        r.2 <= g.nodes@.len(),
        r.2 >= 1,
{
    let n = g.nodes.len();
    let dists = bfs_distances(g, s);
    let mut rsum: u64 = 0;
    let mut rcnt: u64 = 0;
    let mut reach: u64 = 0;
    let mut j: usize = 0;
    while j < n
        invariant
            g.wf(),
            g.has_node(s),
            n == g.nodes@.len(),
            n < 0x8000_0000,
            j <= n,
            bfs_post(*g, s, dists@),
            rsum == row_sum(*g, s, j as int),
            rcnt == row_cnt(*g, s, j as int),
            reach == reach_cnt(*g, s, j as int),
            rsum <= (j as int) * (n as int),
            rcnt <= j,
            reach <= j,
        decreases n - j,
    {
        let t = g.nodes[j];
        proof {
            assert((j as int) * (n as int) <= (n as int) * (n as int)) by (nonlinear_arith)
                requires
                    0 <= j as int <= n as int,
            ;
            assert((n as int) * (n as int) < 0x4000_0000_0000_0000) by (nonlinear_arith)
                requires
                    0 <= (n as int) < 0x8000_0000,
            ;
        }
        match dist_lookup(&dists, t) {
            Some(d) => {
                proof {
                    let i0 = key_index(dists@, t);
                    assert(key_in(dists@, t));
                    assert(0 <= i0 < dists@.len() && dists@[i0].0 == t);
                    lemma_key_val(dists@, i0);
                    assert(d == dists@[i0].1);
                    assert(shortest(*g, s, t, d as nat));
                    assert(reachable(*g, s, t));
                    lemma_sdist_shortest(*g, s, t);
                    lemma_shortest_unique(*g, s, t, sdist(*g, s, t), d as nat);
                    assert(d as int <= i0 && i0 < n as int);
                    if d == 0 {
                        lemma_path_zero(*g, s, t);
                        assert(t == s);
                    } else {
                        if t == s {
                            lemma_key_val(dists@, 0);
                            assert(val_of(dists@, s) == 0);
                        }
                        assert(t != s);
                    }
                }
                if d > 0 {
                    rsum = rsum + (d as u64);
                    rcnt = rcnt + 1;
                }
                reach = reach + 1;
            }
            None => {
                proof {
                    assert(!key_in(dists@, t));
                    assert(!reachable(*g, s, t));
                }
            }
        }
        proof {
            assert((j as int + 1) * (n as int) == (j as int) * (n as int) + (n as int))
                by (nonlinear_arith);
        }
        j += 1;
    }
    proof {
        let k = choose|k: int| 0 <= k < g.nodes@.len() && g.nodes@[k] == s;
        lemma_reach_cnt_pos(*g, s, n as int, k);
    }
    (rsum, rcnt, reach)
}

/// The exact total and count behind the average pairwise distance: summed
/// over every node, the strictly positive shortest-path distances to the
/// nodes it reaches. The average distance is the first component over the
/// second, and zero when the count is zero (no connected pair exists). The
/// node-count bound keeps every intermediate total provably within its
/// integer width.
pub fn average_distance(g: &Graph) -> (r: (u128, u128))
    requires
        g.wf(),
        g.nodes@.len() < 0x8000_0000,
    ensures
        r.0 == total_sum(*g, g.nodes@.len() as int),
        r.1 == total_cnt(*g, g.nodes@.len() as int),
{
    let n = g.nodes.len();
    let mut sum: u128 = 0;
    let mut cnt: u128 = 0;
    let mut i: usize = 0;
    while i < n
        invariant
            g.wf(),
            n == g.nodes@.len(),
            n < 0x8000_0000,
            i <= n,
            sum == total_sum(*g, i as int),
            cnt == total_cnt(*g, i as int),
            sum <= (i as int) * (n as int) * (n as int),
            cnt <= (i as int) * (n as int),
        decreases n - i,
    {
        let s = g.nodes[i];
        proof {
            assert(g.has_node(s));
        }
        let (rsum, rcnt, _reach) = bfs_row(g, s);
        proof {
            assert((i as int) * (n as int) * (n as int) + (n as int) * (n as int) == (i as int + 1)
                * (n as int) * (n as int)) by (nonlinear_arith);
            assert((i as int + 1) * (n as int) * (n as int) <= (n as int) * (n as int) * (n as int))
                by (nonlinear_arith)
                requires
                    0 <= i as int + 1 <= n as int,
            ;
            assert((n as int) * (n as int) * (n as int) < 0x200000000000000000000000)
                by (nonlinear_arith)
                requires
                    0 <= (n as int) < 0x8000_0000,
            ;
            assert((i as int) * (n as int) + (n as int) == (i as int + 1) * (n as int))
                by (nonlinear_arith);
            assert((i as int + 1) * (n as int) <= (n as int) * (n as int)) by (nonlinear_arith)
                requires
                    0 <= i as int + 1 <= n as int,
            ;
            assert((n as int) * (n as int) < 0x4000_0000_0000_0000) by (nonlinear_arith)
                requires
                    0 <= (n as int) < 0x8000_0000,
            ;
        }
        sum = sum + (rsum as u128);
        cnt = cnt + (rcnt as u128);
        i += 1;
    }
    (sum, cnt)
}

/// Every node's closeness centrality as an exact rational, ranked from most
/// central to least. The result is a permutation of `closeness_seq`: one
/// entry per node, ordered by non-increasing score; nodes with equal scores
/// keep no specified relative order. The node-count bound keeps every
/// distance total provably within its integer width.
pub fn closeness_centrality(g: &Graph) -> (r: Vec<(usize, (u64, u64))>)
    requires
        g.wf(),
        g.nodes@.len() < 0x8000_0000,
    ensures
        r@.len() == g.nodes@.len(),
        sorted_desc(r@),
        r@.to_multiset() == closeness_seq(*g).to_multiset(),
{
    let n = g.nodes.len();
    let mut v: Vec<(usize, (u64, u64))> = Vec::new();
    let mut i: usize = 0;
    while i < n
        invariant
            g.wf(),
            n == g.nodes@.len(),
            n < 0x8000_0000,
            i <= n,
            v@ =~= closeness_seq(*g).take(i as int),
            dens_positive(v@),
        decreases n - i,
    {
        let s = g.nodes[i];
        proof {
            assert(g.has_node(s));
        }
        let (rsum, _rcnt, reach) = bfs_row(g, s);
        let c: (u64, u64) = if rsum > 0 {
            (reach - 1, rsum)
        } else {
            (0u64, 1u64)
        };
        proof {
            assert(c == closeness_of(*g, s));
        }
        v.push((s, c));
        proof {
            assert(v@ =~= closeness_seq(*g).take(i as int + 1));
        }
        i += 1;
    }
    proof {
        assert(v@ =~= closeness_seq(*g));
    }
    sort_by_score_desc(&v)
}

} // verus!
