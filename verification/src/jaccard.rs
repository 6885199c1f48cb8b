use vstd::prelude::*;
use crate::graph::Graph;
use crate::rank::{frac_ge, sorted_desc, dens_positive, sort_by_score_desc};

verus! {

/// The Jaccard similarity of `u` and `v` as an exact rational: the sizes of
/// the intersection and of the union of their neighbour sets. Both are zero
/// when either node is absent from the graph; a zero denominator stands for
/// similarity zero.
pub open spec fn jaccard_frac(g: Graph, u: usize, v: usize) -> (int, int) {
    if g.has_node(u) && g.has_node(v) {
        (
            g.nbrs(u).intersect(g.nbrs(v)).len() as int,
            g.nbrs(u).union(g.nbrs(v)).len() as int,
        )
    } else {
        (0, 0)
    }
}

/// Jaccard similarity is symmetric in its two nodes, absent nodes included.
pub proof fn lemma_jaccard_symmetric(g: Graph, u: usize, v: usize)
    ensures
        jaccard_frac(g, u, v) == jaccard_frac(g, v, u),
{
    if g.has_node(u) && g.has_node(v) {
        assert(g.nbrs(u).intersect(g.nbrs(v)) =~= g.nbrs(v).intersect(g.nbrs(u)));
        assert(g.nbrs(u).union(g.nbrs(v)) =~= g.nbrs(v).union(g.nbrs(u)));
    }
}

/// Every neighbour set of a well-formed graph is finite and no larger than
/// the node list: neighbours are nodes.
pub proof fn lemma_nbrs_finite(g: Graph, u: usize)
    requires
        g.wf(),
    ensures
        g.nbrs(u).finite(),
        g.nbrs(u).subset_of(g.nodes@.to_set()),
        g.nbrs(u).len() <= g.nodes@.len(),
{
    broadcast use vstd::seq_lib::seq_to_set_is_finite;

    if g.has_node(u) {
        let i = g.nodes@.index_of(u);
        assert(0 <= i < g.nodes@.len() && g.nodes@[i] == u);
    }
    assert forall|w: usize| g.nbrs(u).contains(w) implies g.nodes@.to_set().contains(w) by {
        assert(g.edge(u, w));
        assert(g.edge(w, u));
        assert(g.has_node(w));
    }
    g.nodes@.unique_seq_to_set();
    vstd::set_lib::lemma_len_subset(g.nbrs(u), g.nodes@.to_set());
}

/// The Jaccard fraction always describes a value between zero and one: the
/// intersection is never larger than the union. It is `0/0` (read as zero)
/// when either node is absent, and its numerator is zero when both neighbour
/// sets are empty.
pub proof fn lemma_jaccard_bounds(g: Graph, u: usize, v: usize)
    requires
        g.wf(),
    ensures
        0 <= jaccard_frac(g, u, v).0,
        jaccard_frac(g, u, v).0 <= jaccard_frac(g, u, v).1,
        !(g.has_node(u) && g.has_node(v)) ==> jaccard_frac(g, u, v) == (0int, 0int),
        g.nbrs(u).is_empty() && g.nbrs(v).is_empty() ==> jaccard_frac(g, u, v).0 == 0
            && jaccard_frac(g, u, v).1 == 0,
{
    if g.has_node(u) && g.has_node(v) {
        lemma_nbrs_finite(g, u);
        lemma_nbrs_finite(g, v);
        broadcast use vstd::set::group_set_axioms;

        assert(g.nbrs(u).intersect(g.nbrs(v)).subset_of(g.nbrs(u).union(g.nbrs(v))));
        vstd::set_lib::lemma_len_subset(
            g.nbrs(u).intersect(g.nbrs(v)),
            g.nbrs(u).union(g.nbrs(v)),
        );
        if g.nbrs(u).is_empty() && g.nbrs(v).is_empty() {
            assert(g.nbrs(u).union(g.nbrs(v)) =~= Set::<usize>::empty());
        }
    }
}

/// Counts the elements of `a` that `b` also holds; with `a` duplicate-free
/// this is the size of the intersection of the two element sets.
fn count_common(a: &Vec<usize>, b: &Vec<usize>) -> (r: usize)
    requires
        a@.no_duplicates(),
    ensures
        r == a@.to_set().intersect(b@.to_set()).len(),
        r <= a@.len(),
{
    broadcast use vstd::seq_lib::seq_to_set_is_finite;
    broadcast use vstd::set::group_set_axioms;

    let ghost bset = b@.to_set();
    let mut cnt: usize = 0;
    let mut m: usize = 0;
    proof {
        assert(a@.take(0).to_set() =~= Set::<usize>::empty());
        assert(a@.take(0).to_set().intersect(bset) =~= Set::<usize>::empty());
    }
    while m < a.len()
        invariant
            a@.no_duplicates(),
            m <= a@.len(),
            bset == b@.to_set(),
            cnt == a@.take(m as int).to_set().intersect(bset).len(),
            cnt <= m,
        decreases a@.len() - m,
    {
        let x = a[m];
        let ghost pset = a@.take(m as int).to_set();
        proof {
            assert(a@.take(m as int + 1) =~= a@.take(m as int).push(x));
            a@.take(m as int).lemma_push_to_set_commute(x);
            assert(a@.take(m as int + 1).to_set() =~= pset.insert(x));
            assert(!a@.take(m as int).contains(x));
            assert(!pset.contains(x));
        }
        if crate::graph::contains_id(b, x) {
            proof {
                assert(bset.contains(x));
                assert(pset.insert(x).intersect(bset) =~= pset.intersect(bset).insert(x));
                assert(!pset.intersect(bset).contains(x));
                assert(pset.intersect(bset).finite()) by {
                    vstd::set_lib::lemma_len_intersect(pset, bset);
                }
            }
            cnt = cnt + 1;
        } else {
            proof {
                assert(pset.insert(x).intersect(bset) =~= pset.intersect(bset));
            }
        }
        m += 1;
    }
    proof {
        assert(a@.take(a@.len() as int) =~= a@);
    }
    cnt
}

/// Counts the elements of `b` that `a` lacks; with `b` duplicate-free this
/// is the size of the set difference of the two element sets.
fn count_missing(a: &Vec<usize>, b: &Vec<usize>) -> (r: usize)
    requires
        b@.no_duplicates(),
    ensures
        r == b@.to_set().difference(a@.to_set()).len(),
        r <= b@.len(),
{
    broadcast use vstd::seq_lib::seq_to_set_is_finite;
    broadcast use vstd::set::group_set_axioms;

    let ghost aset = a@.to_set();
    let mut cnt: usize = 0;
    let mut m: usize = 0;
    proof {
        assert(b@.take(0).to_set() =~= Set::<usize>::empty());
        assert(b@.take(0).to_set().difference(aset) =~= Set::<usize>::empty());
    }
    while m < b.len()
        invariant
            b@.no_duplicates(),
            m <= b@.len(),
            aset == a@.to_set(),
            cnt == b@.take(m as int).to_set().difference(aset).len(),
            cnt <= m,
        decreases b@.len() - m,
    {
        let x = b[m];
        let ghost qset = b@.take(m as int).to_set();
        proof {
            assert(b@.take(m as int + 1) =~= b@.take(m as int).push(x));
            b@.take(m as int).lemma_push_to_set_commute(x);
            assert(b@.take(m as int + 1).to_set() =~= qset.insert(x));
            assert(!b@.take(m as int).contains(x));
            assert(!qset.contains(x));
        }
        if !crate::graph::contains_id(a, x) {
            proof {
                assert(!aset.contains(x));
                assert(qset.insert(x).difference(aset) =~= qset.difference(aset).insert(x));
                assert(!qset.difference(aset).contains(x));
                assert(qset.difference(aset).finite()) by {
                    vstd::set_lib::lemma_len_subset(qset.difference(aset), qset);
                }
            }
            cnt = cnt + 1;
        } else {
            proof {
                assert(qset.insert(x).difference(aset) =~= qset.difference(aset));
            }
        }
        m += 1;
    }
    proof {
        assert(b@.take(b@.len() as int) =~= b@);
    }
    cnt
}

/// The Jaccard similarity of `u` and `v`: how many neighbours they share,
/// over how many distinct neighbours they have together. The similarity
/// value is the first component divided by the second, read as zero when the
/// denominator is zero (absent nodes); the fraction never exceeds one.
pub fn jaccard_similarity(g: &Graph, u: usize, v: usize) -> (r: (usize, usize))
    requires
        g.wf(),
    ensures
        r.0 == jaccard_frac(*g, u, v).0,
        r.1 == jaccard_frac(*g, u, v).1,
        r.0 <= r.1,
{
    proof {
        lemma_jaccard_bounds(*g, u, v);
    }
    let nu = g.neighbors(u);
    let nv = g.neighbors(v);
    match (nu, nv) {
        (Some(a), Some(b)) => {
            let inter = count_common(a, b);
            let missing = count_missing(a, b);
            proof {
                broadcast use vstd::seq_lib::seq_to_set_is_finite;
                broadcast use vstd::set::group_set_axioms;
                broadcast use vstd::set_lib::lemma_set_disjoint_lens;

                lemma_nbrs_finite(*g, u);
                lemma_nbrs_finite(*g, v);
                a@.unique_seq_to_set();
                let aset = a@.to_set();
                let bset = b@.to_set();
                assert(aset.disjoint(bset.difference(aset)));
                assert((aset + bset.difference(aset)) =~= aset.union(bset));
                assert(aset.union(bset).len() == aset.len() + bset.difference(aset).len());
                g.nodes@.unique_seq_to_set();
                assert(aset.union(bset).subset_of(g.nodes@.to_set()));
                vstd::set_lib::lemma_len_subset(aset.union(bset), g.nodes@.to_set());
            }
            (inter, a.len() + missing)
        }
        _ => (0, 0),
    }
}

/// What the unordered pair `{u, v}` contributes to the similarity ranking:
/// its Jaccard fraction, kept only when both nodes have more than one
/// neighbour and the similarity is strictly positive.
pub open spec fn pair_entry(g: Graph, u: usize, v: usize) -> Seq<((usize, usize), (u64, u64))> {
    if g.nbrs(u).len() > 1 && g.nbrs(v).len() > 1 && jaccard_frac(g, u, v).0 > 0 {
        seq![((u, v), (jaccard_frac(g, u, v).0 as u64, jaccard_frac(g, u, v).1 as u64))]
    } else {
        seq![]
    }
}

/// The kept pairs `(nodes[i], nodes[k])` for `i < k < j`, in enumeration
/// order.
pub open spec fn cand_row(g: Graph, i: int, j: int) -> Seq<((usize, usize), (u64, u64))>
    decreases j,
{
    if i < 0 || j <= i + 1 {
        seq![]
    } else {
        cand_row(g, i, j - 1) + pair_entry(g, g.nodes@[i], g.nodes@[j - 1])
    }
}

/// All kept pairs `(nodes[a], nodes[b])` with `a < b < nodes.len()` and
/// `a < i`, in enumeration order: every unordered pair of distinct nodes
/// considered exactly once.
pub open spec fn cands(g: Graph, i: int) -> Seq<((usize, usize), (u64, u64))>
    decreases i,
{
    if i <= 0 {
        seq![]
    } else {
        cands(g, i - 1) + cand_row(g, i - 1, g.nodes@.len() as int)
    }
}

/// What holds of every kept pair: two distinct nodes of the graph, both with
/// more than one neighbour, scored by their exact Jaccard fraction, which is
/// strictly positive and at most one.
pub open spec fn cand_ok(g: Graph, e: ((usize, usize), (u64, u64))) -> bool {
    &&& g.has_node(e.0.0) && g.has_node(e.0.1)
    &&& e.0.0 != e.0.1
    &&& g.nbrs(e.0.0).len() > 1 && g.nbrs(e.0.1).len() > 1
    &&& e.1.0 as int == jaccard_frac(g, e.0.0, e.0.1).0
    &&& e.1.1 as int == jaccard_frac(g, e.0.0, e.0.1).1
    &&& 1 <= e.1.0 <= e.1.1
}

/// Every entry of a candidate row satisfies `cand_ok`.
proof fn lemma_cand_row_ok(g: Graph, i: int, j: int)
    requires
        g.wf(),
        0 <= i < g.nodes@.len(),
        j <= g.nodes@.len(),
    ensures
        forall|k: int| 0 <= k < cand_row(g, i, j).len() ==> cand_ok(g, #[trigger] cand_row(g, i, j)[k]),
    decreases j,
{
    if j > i + 1 {
        lemma_cand_row_ok(g, i, j - 1);
        let u = g.nodes@[i];
        let v = g.nodes@[j - 1];
        let row = cand_row(g, i, j);
        assert forall|k: int| 0 <= k < row.len() implies cand_ok(g, #[trigger] row[k]) by {
            if k < cand_row(g, i, j - 1).len() {
                assert(row[k] == cand_row(g, i, j - 1)[k]);
            } else {
                assert(pair_entry(g, u, v).len() > 0);
                assert(row[k] == pair_entry(g, u, v)[0]);
                assert(g.nodes@.contains(u) && g.nodes@.contains(v));
                assert(u != v);
                lemma_jaccard_bounds(g, u, v);
                assert(jaccard_frac(g, u, v).1 <= g.nodes@.len()) by {
                    lemma_nbrs_finite(g, u);
                    lemma_nbrs_finite(g, v);
                    broadcast use vstd::set::group_set_axioms;

                    g.nodes@.unique_seq_to_set();
                    vstd::set_lib::lemma_len_subset(
                        g.nbrs(u).union(g.nbrs(v)),
                        g.nodes@.to_set(),
                    );
                }
            }
        }
    }
}

/// Every candidate entry satisfies `cand_ok`.
proof fn lemma_cands_ok(g: Graph, i: int)
    requires
        g.wf(),
        i <= g.nodes@.len(),
    ensures
        forall|k: int| 0 <= k < cands(g, i).len() ==> cand_ok(g, #[trigger] cands(g, i)[k]),
    decreases i,
{
    if i > 0 {
        lemma_cands_ok(g, i - 1);
        lemma_cand_row_ok(g, i - 1, g.nodes@.len() as int);
        let cs = cands(g, i);
        assert forall|k: int| 0 <= k < cs.len() implies cand_ok(g, #[trigger] cs[k]) by {
            if k < cands(g, i - 1).len() {
                assert(cs[k] == cands(g, i - 1)[k]);
            } else {
                assert(cs[k] == cand_row(g, i - 1, g.nodes@.len() as int)[k - cands(
                    g,
                    i - 1,
                ).len()]);
            }
        }
    }
}

/// A graph without nodes has no metrics: its distance total and connected
/// pair count are zero (so the average distance reads as zero), its
/// centrality ranking is empty, and no pair survives the similarity
/// enumeration whatever the cutoff.
pub proof fn lemma_empty_graph_metrics(g: Graph)
    requires
        g.wf(),
        g.nodes@.len() == 0,
    ensures
        crate::distance::total_sum(g, g.nodes@.len() as int) == 0,
        crate::distance::total_cnt(g, g.nodes@.len() as int) == 0,
        crate::distance::closeness_seq(g) =~= Seq::<(usize, (u64, u64))>::empty(),
        cands(g, g.nodes@.len() as int) =~= Seq::<((usize, usize), (u64, u64))>::empty(),
{
}

/// The `top_n` most similar node pairs by Jaccard similarity. Every
/// unordered pair of distinct nodes is considered once; pairs where either
/// node has at most one neighbour, or whose similarity is zero, are dropped;
/// the rest are ranked by exact fraction comparison, highest first, and the
/// first `top_n` (or fewer, if fewer survive) are returned. The result is a
/// prefix of some similarity-sorted permutation of the kept pairs; pairs
/// with equal similarity keep no specified relative order.
pub fn most_similar_pairs(g: &Graph, top_n: usize) -> (r: Vec<((usize, usize), (u64, u64))>)
    requires
        g.wf(),
    ensures
        r@.len() <= top_n,
        sorted_desc(r@),
        forall|k: int| 0 <= k < r@.len() ==> cand_ok(*g, #[trigger] r@[k]),
        exists|all: Seq<((usize, usize), (u64, u64))>|
            #![auto]
            all.to_multiset() == cands(*g, g.nodes@.len() as int).to_multiset() && sorted_desc(all)
                && r@ == all.take(
                if (top_n as int) <= all.len() {
                    top_n as int
                } else {
                    all.len() as int
                },
            ),
{
    let n = g.nodes.len();
    let mut results: Vec<((usize, usize), (u64, u64))> = Vec::new();
    let mut i: usize = 0;
    while i < n
        invariant
            g.wf(),
            n == g.nodes@.len(),
            i <= n,
            results@ == cands(*g, i as int),
        decreases n - i,
    {
        let u = g.nodes[i];
        let mut j: usize = i + 1;
        while j < n
            invariant
                g.wf(),
                n == g.nodes@.len(),
                i < n,
                i + 1 <= j <= n,
                u == g.nodes@[i as int],
                results@ == cands(*g, i as int) + cand_row(*g, i as int, j as int),
            decreases n - j,
        {
            let v = g.nodes[j];
            proof {
                assert(g.has_node(u) && g.has_node(v));
            }
            let du = match g.degree(u) {
                Some(d) => d,
                None => 0,
            };
            let dv = match g.degree(v) {
                Some(d) => d,
                None => 0,
            };
            let ghost pre = results@;
            if du > 1 && dv > 1 {
                let (inter, uni) = jaccard_similarity(g, u, v);
                if inter > 0 {
                    results.push(((u, v), (inter as u64, uni as u64)));
                }
            }
            proof {
                let gj = j as int;
                assert(cand_row(*g, i as int, gj + 1) == cand_row(*g, i as int, gj) + pair_entry(
                    *g,
                    u,
                    g.nodes@[gj],
                ));
                if pair_entry(*g, u, g.nodes@[gj]).len() == 0 {
                    assert(results@ == pre);
                    assert(cand_row(*g, i as int, gj + 1) =~= cand_row(*g, i as int, gj));
                } else {
                    assert(results@ =~= pre + pair_entry(*g, u, g.nodes@[gj]));
                }
                assert(results@ =~= cands(*g, i as int) + cand_row(*g, i as int, gj + 1));
            }
            j += 1;
        }
        proof {
            assert(cands(*g, i as int + 1) == cands(*g, i as int) + cand_row(
                *g,
                i as int,
                n as int,
            ));
        }
        i += 1;
    }
    proof {
        lemma_cands_ok(*g, n as int);
        assert(dens_positive(results@)) by {
            assert forall|k: int| 0 <= k < results@.len() implies (#[trigger] results@[k]).1.1
                >= 1 by {
                assert(cand_ok(*g, cands(*g, n as int)[k]));
            }
        }
    }
    let sorted = sort_by_score_desc(&results);
    let ghost all = sorted@;
    let mut out = sorted;
    out.truncate(top_n);
    proof {
        broadcast use vstd::seq_lib::to_multiset_contains;

        let cut = if (top_n as int) <= all.len() {
            top_n as int
        } else {
            all.len() as int
        };
        assert(out@ =~= all.take(cut));
        assert(sorted_desc(out@)) by {
            assert forall|a: int, b: int| 0 <= a <= b < out@.len() implies frac_ge(
                out@[a].1,
                out@[b].1,
            ) by {
                assert(out@[a] == all[a] && out@[b] == all[b]);
            }
        }
        assert forall|k: int| 0 <= k < out@.len() implies cand_ok(*g, #[trigger] out@[k]) by {
            assert(out@[k] == all[k]);
            assert(all.contains(all[k]));
            assert(all.to_multiset().contains(all[k]));
            assert(cands(*g, n as int).to_multiset().contains(all[k]));
            assert(cands(*g, n as int).contains(all[k]));
            let idx = choose|idx: int|
                0 <= idx < cands(*g, n as int).len() && cands(*g, n as int)[idx] == all[k];
            assert(cand_ok(*g, cands(*g, n as int)[idx]));
        }
    }
    out
}

} // verus!
