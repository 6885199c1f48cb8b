use vstd::prelude::*;

verus! {

/// An undirected social-connection graph, stored as an adjacency structure:
/// `nodes` lists the distinct node identifiers in insertion order, and
/// `adj[i]` lists the neighbours of `nodes[i]`, without duplicates.
///
/// `num_nodes` always equals the number of distinct nodes present, while
/// `num_edges` counts how many edge insertions were performed, duplicates
/// included: a repeated edge is absorbed by the neighbour sets but still
/// counted, so the two fields answer different questions.
pub struct Graph {
    pub nodes: Vec<usize>,
    pub adj: Vec<Vec<usize>>,
    pub num_nodes: usize,
    pub num_edges: usize,
}

impl Graph {
    /// Whether `u` has an entry in the adjacency structure.
    pub open spec fn has_node(self, u: usize) -> bool {
        self.nodes@.contains(u)
    }

    /// The neighbour set of `u`; empty when `u` is unknown.
    pub open spec fn nbrs(self, u: usize) -> Set<usize> {
        if self.has_node(u) {
            self.adj@[self.nodes@.index_of(u)]@.to_set()
        } else {
            Set::<usize>::empty()
        }
    }

    /// Whether the graph records `w` as a neighbour of `u`.
    pub open spec fn edge(self, u: usize, w: usize) -> bool {
        self.nbrs(u).contains(w)
    }

    /// Well-formedness: node identifiers are distinct, every node has an
    /// adjacency row without duplicate entries, the adjacency relation is
    /// symmetric, and `num_nodes` counts the distinct nodes.
    pub open spec fn wf(self) -> bool {
        &&& self.nodes@.no_duplicates()
        &&& self.adj@.len() == self.nodes@.len()
        &&& forall|i: int| 0 <= i < self.adj@.len() ==> (#[trigger] self.adj@[i])@.no_duplicates()
        &&& forall|u: usize, w: usize| #[trigger] self.edge(u, w) ==> self.edge(w, u)
        &&& self.num_nodes == self.nodes@.len()
    }

    /// Creates a new empty graph with zero nodes and edges.
    pub fn new() -> (g: Graph)
        ensures
            g.wf(),
            g.nodes@ =~= Seq::<usize>::empty(),
            g.num_nodes == 0,
            g.num_edges == 0,
            forall|u: usize| g.nbrs(u) =~= Set::<usize>::empty(),
    {
        Graph { nodes: Vec::new(), adj: Vec::new(), num_nodes: 0, num_edges: 0 }
    }
    /// Finds the position of `u` in the node list, if present.
    fn find_node(&self, u: usize) -> (r: Option<usize>)
        ensures
            match r {
                Some(i) => i < self.nodes@.len() && self.nodes@[i as int] == u,
                None => !self.has_node(u),
            },
    {
        let mut i: usize = 0;
        while i < self.nodes.len()
            invariant
                i <= self.nodes@.len(),
                forall|k: int| 0 <= k < i ==> self.nodes@[k] != u,
            decreases self.nodes@.len() - i,
        {
            if self.nodes[i] == u {
                return Some(i);
            }
            i += 1;
        }
        None
    }

    /// Makes sure `u` has an entry, appending one with no neighbours if it
    /// was absent, and returns its position in the node list.
    fn ensure_node(&mut self, u: usize) -> (i: usize)
        requires
            old(self).wf(),
        ensures
            final(self).wf(),
            i < final(self).nodes@.len(),
            final(self).nodes@[i as int] == u,
            old(self).has_node(u) ==> final(self).nodes@ == old(self).nodes@
                && final(self).adj@ == old(self).adj@,
            !old(self).has_node(u) ==> final(self).nodes@ == old(self).nodes@.push(u)
                && final(self).adj@.len() == old(self).adj@.len() + 1
                && final(self).adj@[i as int]@ =~= Seq::<usize>::empty()
                && (forall|k: int| 0 <= k < old(self).adj@.len()
                    ==> final(self).adj@[k] == old(self).adj@[k]),
            forall|x: usize| final(self).nbrs(x) =~= old(self).nbrs(x),
            forall|x: usize| final(self).has_node(x) <==> (old(self).has_node(x) || x == u),
            final(self).num_edges == old(self).num_edges,
    {
        proof {
            broadcast use vstd::seq_lib::lemma_seq_contains_after_push;
        }
        match self.find_node(u) {
            Some(i) => i,
            None => {
                let i = self.nodes.len();
                self.nodes.push(u);
                self.adj.push(Vec::new());
                self.num_nodes = self.nodes.len();
                proof {
                    assert(self.nodes@.no_duplicates());
                    assert forall|x: usize| self.nbrs(x) =~= old(self).nbrs(x) by {
                        if old(self).has_node(x) {
                            let j = lemma_index_realizes(old(self).nodes@, x);
                            lemma_index_of_unique(self.nodes@, j, x);
                            assert(self.nodes@.contains(x));
                        } else if x == u {
                            lemma_index_of_unique(self.nodes@, i as int, u);
                            assert(self.adj@[i as int]@.to_set() =~= Set::<usize>::empty());
                        } else {
                            assert(!self.has_node(x));
                        }
                    }
                    assert forall|a: usize, b: usize| #[trigger] self.edge(a, b)
                        implies self.edge(b, a) by {
                        assert(old(self).edge(a, b));
                    }
                    assert(self.adj@[i as int]@ =~= Seq::<usize>::empty());
                }
                i
            }
        }
    }

    /// Records the undirected edge `{u, v}`: `v` joins `u`'s neighbour set
    /// and `u` joins `v`'s, creating either node's entry if absent. The edge
    /// counter grows by one even when the edge was already present.
    pub fn add_edge(&mut self, u: usize, v: usize)
        requires
            old(self).wf(),
            old(self).num_edges < usize::MAX,
        ensures
            final(self).wf(),
            forall|x: usize|
                final(self).has_node(x) <==> (old(self).has_node(x) || x == u || x == v),
            final(self).nbrs(u) =~= old(self).nbrs(u).insert(v),
            final(self).nbrs(v) =~= old(self).nbrs(v).insert(u),
            forall|x: usize| x != u && x != v ==> final(self).nbrs(x) =~= old(self).nbrs(x),
            final(self).num_edges == old(self).num_edges + 1,
            final(self).num_nodes == final(self).nodes@.len(),
    {
        let iu = self.ensure_node(u);
        let iv = self.ensure_node(v);
        proof {
            assert(self.nodes@[iu as int] == u);
            lemma_index_of_unique(self.nodes@, iu as int, u);
            lemma_index_of_unique(self.nodes@, iv as int, v);
            if u == v {
                assert(iu == iv);
            }
        }
        let ghost mid = *self;
        if !contains_id(&self.adj[iu], v) {
            self.adj[iu].push(v);
        }
        proof {
            lemma_row_update(mid, *self, iu as int, v);
        }
        let ghost mid2 = *self;
        if !contains_id(&self.adj[iv], u) {
            self.adj[iv].push(u);
        }
        self.num_edges = self.num_edges + 1;
        proof {
            lemma_row_update(mid2, *self, iv as int, u);
            assert(self.nbrs(u) =~= old(self).nbrs(u).insert(v));
            assert(self.nbrs(v) =~= old(self).nbrs(v).insert(u));
            assert forall|x: usize| x != u && x != v
                implies self.nbrs(x) =~= old(self).nbrs(x) by {}
            assert forall|a: usize, b: usize| #[trigger] self.edge(a, b)
                implies self.edge(b, a) by {
                if a == u && b == v {
                } else if a == v && b == u {
                } else {
                    assert(old(self).edge(a, b));
                    assert(old(self).edge(b, a));
                }
            }
        }
    }
}

/// Whether some edge in the sequence mentions `x` on either side.
pub open spec fn edge_seq_mentions(es: Seq<(usize, usize)>, x: usize) -> bool {
    exists|k: int| 0 <= k < es.len() && ((#[trigger] es[k]).0 == x || es[k].1 == x)
}

/// The set of nodes paired with `x` by some edge in the sequence.
pub open spec fn partners(es: Seq<(usize, usize)>, x: usize) -> Set<usize> {
    Set::new(
        |y: usize|
            exists|k: int|
                0 <= k < es.len() && (((#[trigger] es[k]).0 == x && es[k].1 == y) || (es[k].1 == x
                    && es[k].0 == y)),
    )
}

/// Folding one more edge into a prefix extends the mentioned-node predicate
/// by exactly that edge's endpoints.
proof fn lemma_mentions_step(es: Seq<(usize, usize)>, i: int, x: usize)
    requires
        0 <= i < es.len(),
    ensures
        edge_seq_mentions(es.take(i + 1), x) <==> (edge_seq_mentions(es.take(i), x) || es[i].0 == x
            || es[i].1 == x),
{
    let t0 = es.take(i);
    let t1 = es.take(i + 1);
    assert(t1 =~= t0.push(es[i]));
    if edge_seq_mentions(t0, x) {
        let k = choose|k: int| 0 <= k < t0.len() && ((#[trigger] t0[k]).0 == x || t0[k].1 == x);
        assert(t1[k] == t0[k]);
        assert(edge_seq_mentions(t1, x));
    }
    if es[i].0 == x || es[i].1 == x {
        assert(t1[i] == es[i]);
        assert(edge_seq_mentions(t1, x));
    }
    if edge_seq_mentions(t1, x) && !(es[i].0 == x || es[i].1 == x) {
        let k = choose|k: int| 0 <= k < t1.len() && ((#[trigger] t1[k]).0 == x || t1[k].1 == x);
        assert(t1[i] == es[i]);
        assert(k < i);
        assert(t0[k] == t1[k]);
        assert(edge_seq_mentions(t0, x));
    }
}

/// Folding one more edge into a prefix extends the partner set of `x` by
/// exactly what that edge contributes to `x`.
proof fn lemma_partners_step(es: Seq<(usize, usize)>, i: int, x: usize)
    requires
        0 <= i < es.len(),
    ensures
        es[i].0 == x && es[i].1 == x ==> partners(es.take(i + 1), x) =~= partners(
            es.take(i),
            x,
        ).insert(x),
        es[i].0 == x && es[i].1 != x ==> partners(es.take(i + 1), x) =~= partners(
            es.take(i),
            x,
        ).insert(es[i].1),
        es[i].1 == x && es[i].0 != x ==> partners(es.take(i + 1), x) =~= partners(
            es.take(i),
            x,
        ).insert(es[i].0),
        es[i].0 != x && es[i].1 != x ==> partners(es.take(i + 1), x) =~= partners(es.take(i), x),
{
    let t0 = es.take(i);
    let t1 = es.take(i + 1);
    assert(t1 =~= t0.push(es[i]));
    assert(t1[i] == es[i]);
    assert forall|y: usize| partners(t0, x).contains(y) implies partners(t1, x).contains(y) by {
        let k = choose|k: int|
            0 <= k < t0.len() && (((#[trigger] t0[k]).0 == x && t0[k].1 == y) || (t0[k].1 == x
                && t0[k].0 == y));
        assert(t1[k] == t0[k]);
    }
    assert forall|y: usize|
        partners(t1, x).contains(y) && !((es[i].0 == x && es[i].1 == y) || (es[i].1 == x && es[i].0
            == y)) implies partners(t0, x).contains(y) by {
        let k = choose|k: int|
            0 <= k < t1.len() && (((#[trigger] t1[k]).0 == x && t1[k].1 == y) || (t1[k].1 == x
                && t1[k].0 == y));
        assert(k < i);
        assert(t0[k] == t1[k]);
    }
    if es[i].0 == x {
        assert(partners(t1, x).contains(es[i].1));
    }
    if es[i].1 == x {
        assert(partners(t1, x).contains(es[i].0));
    }
}

impl Graph {
    /// Builds a graph by folding a sequence of edges, one `add_edge` call per
    /// entry. A node's neighbour set afterwards is exactly the set of its
    /// partners in the input, and `num_edges` counts every input entry,
    /// duplicates included.
    pub fn from_edges(edges: &Vec<(usize, usize)>) -> (g: Graph)
        ensures
            g.wf(),
            g.num_edges == edges@.len(),
            forall|x: usize| g.has_node(x) <==> edge_seq_mentions(edges@, x),
            forall|x: usize| g.nbrs(x) =~= partners(edges@, x),
    {
        let mut g = Graph::new();
        let mut i: usize = 0;
        proof {
            assert forall|x: usize| g.nbrs(x) =~= partners(edges@.take(0), x) by {}
        }
        while i < edges.len()
            invariant
                g.wf(),
                g.num_edges == i,
                i <= edges@.len(),
                forall|x: usize| g.has_node(x) <==> edge_seq_mentions(edges@.take(i as int), x),
                forall|x: usize| g.nbrs(x) =~= partners(edges@.take(i as int), x),
            decreases edges@.len() - i,
        {
            let (u, v) = edges[i];
            let ghost pre = g;
            g.add_edge(u, v);
            proof {
                let gi = i as int;
                assert forall|x: usize|
                    g.has_node(x) <==> edge_seq_mentions(edges@.take(gi + 1), x) by {
                    lemma_mentions_step(edges@, gi, x);
                }
                assert forall|x: usize| g.nbrs(x) =~= partners(edges@.take(gi + 1), x) by {
                    lemma_partners_step(edges@, gi, x);
                    if x == u && x == v {
                        assert(g.nbrs(x) =~= pre.nbrs(x).insert(x));
                    } else if x == u {
                        assert(g.nbrs(x) =~= pre.nbrs(x).insert(v));
                    } else if x == v {
                        assert(g.nbrs(x) =~= pre.nbrs(x).insert(u));
                    } else {
                        assert(g.nbrs(x) =~= pre.nbrs(x));
                    }
                }
            }
            i += 1;
        }
        proof {
            assert(edges@.take(edges@.len() as int) =~= edges@);
        }
        g
    }

    /// The number of neighbours of `node`, or `None` when the node was never
    /// referenced by any edge.
    pub fn degree(&self, node: usize) -> (r: Option<usize>)
        requires
            self.wf(),
        ensures
            match r {
                Some(d) => self.has_node(node) && d == self.nbrs(node).len(),
                None => !self.has_node(node),
            },
    {
        match self.find_node(node) {
            Some(i) => {
                proof {
                    lemma_index_of_unique(self.nodes@, i as int, node);
                    self.adj@[i as int]@.unique_seq_to_set();
                }
                Some(self.adj[i].len())
            }
            None => None,
        }
    }

    /// The neighbour list of `node`, or `None` when the node is unknown. The
    /// list carries each neighbour exactly once.
    pub fn neighbors(&self, node: usize) -> (r: Option<&Vec<usize>>)
        requires
            self.wf(),
        ensures
            match r {
                Some(ns) => self.has_node(node) && ns@.to_set() == self.nbrs(node)
                    && ns@.no_duplicates(),
                None => !self.has_node(node),
            },
    {
        match self.find_node(node) {
            Some(i) => {
                proof {
                    lemma_index_of_unique(self.nodes@, i as int, node);
                }
                Some(&self.adj[i])
            }
            None => None,
        }
    }

    /// The `(node, degree)` pair of every node present, one entry per node in
    /// insertion order: exactly `num_nodes` entries, and each degree is the
    /// size of that node's neighbour set.
    pub fn all_degrees(&self) -> (r: Vec<(usize, usize)>)
        requires
            self.wf(),
        ensures
            r@.len() == self.num_nodes,
            forall|i: int|
                0 <= i < r@.len() ==> (#[trigger] r@[i]).0 == self.nodes@[i] && r@[i].1
                    == self.nbrs(self.nodes@[i]).len(),
    {
        let mut r: Vec<(usize, usize)> = Vec::new();
        let mut i: usize = 0;
        while i < self.nodes.len()
            invariant
                self.wf(),
                i <= self.nodes@.len(),
                r@.len() == i,
                forall|k: int|
                    0 <= k < i ==> (#[trigger] r@[k]).0 == self.nodes@[k] && r@[k].1 == self.nbrs(
                        self.nodes@[k],
                    ).len(),
            decreases self.nodes@.len() - i,
        {
            let node = self.nodes[i];
            let d = self.adj[i].len();
            proof {
                lemma_index_of_unique(self.nodes@, i as int, node);
                self.adj@[i as int]@.unique_seq_to_set();
            }
            r.push((node, d));
            i += 1;
        }
        r
    }
}

/// Whether a node identifier occurs in a list.
pub(crate) fn contains_id(v: &Vec<usize>, x: usize) -> (r: bool)
    ensures
        r == v@.contains(x),
{
    let mut i: usize = 0;
    while i < v.len()
        invariant
            i <= v@.len(),
            forall|k: int| 0 <= k < i ==> v@[k] != x,
        decreases v@.len() - i,
    {
        if v[i] == x {
            return true;
        }
        i += 1;
    }
    false
}

/// For a contained element, `index_of` returns a valid position holding it.
proof fn lemma_index_realizes(s: Seq<usize>, u: usize) -> (j: int)
    requires
        s.contains(u),
    ensures
        0 <= j < s.len(),
        s[j] == u,
        j == s.index_of(u),
{
    s.index_of(u)
}

/// Inserting `x` into the adjacency row at position `r` adds `x` to exactly
/// the neighbour set of the node that owns that row.
proof fn lemma_row_update(pre: Graph, post: Graph, r: int, x: usize)
    requires
        pre.nodes@.no_duplicates(),
        pre.adj@.len() == pre.nodes@.len(),
        forall|i: int| 0 <= i < pre.adj@.len() ==> (#[trigger] pre.adj@[i])@.no_duplicates(),
        0 <= r < pre.adj@.len(),
        post.nodes@ == pre.nodes@,
        post.adj@.len() == pre.adj@.len(),
        forall|k: int| 0 <= k < pre.adj@.len() && k != r ==> post.adj@[k] == pre.adj@[k],
        if pre.adj@[r]@.contains(x) {
            post.adj@[r] == pre.adj@[r]
        } else {
            post.adj@[r]@ == pre.adj@[r]@.push(x)
        },
    ensures
        forall|i: int| 0 <= i < post.adj@.len() ==> (#[trigger] post.adj@[i])@.no_duplicates(),
        post.nbrs(pre.nodes@[r]) =~= pre.nbrs(pre.nodes@[r]).insert(x),
        forall|y: usize| y != pre.nodes@[r] ==> post.nbrs(y) =~= pre.nbrs(y),
{
    let u = pre.nodes@[r];
    lemma_index_of_unique(pre.nodes@, r, u);
    if pre.adj@[r]@.contains(x) {
        assert(pre.adj@[r]@.to_set().contains(x));
        assert(post.nbrs(u) =~= pre.nbrs(u).insert(x));
    } else {
        pre.adj@[r]@.lemma_push_to_set_commute(x);
        assert(post.adj@[r]@.no_duplicates());
        assert(post.nbrs(u) =~= pre.nbrs(u).insert(x));
    }
    assert forall|y: usize| y != u implies post.nbrs(y) =~= pre.nbrs(y) by {
        if pre.nodes@.contains(y) {
            let j = lemma_index_realizes(pre.nodes@, y);
            assert(j != r);
            assert(post.adj@[j] == pre.adj@[j]);
        }
    }
}

/// In a duplicate-free sequence, `index_of` finds exactly the one position
/// that holds the element.
proof fn lemma_index_of_unique(s: Seq<usize>, i: int, u: usize)
    requires
        s.no_duplicates(),
        0 <= i < s.len(),
        s[i] == u,
    ensures
        s.index_of(u) == i,
{
    assert(s.contains(u));
    let j = s.index_of(u);
    assert(0 <= j < s.len() && s[j] == u);
}

} // verus!
