//! Undirected simple graphs as a square bit matrix.

use crate::bits::{
    bit_at, bits_count_ones, bits_repeat, count_both, count_true, lemma_count_both_bound,
    lemma_count_true_bound, max_bits, popcount, set_bit, Bitmap,
};
use vstd::prelude::*;

verus! {

/// A square, symmetric matrix with a clear diagonal.
pub open spec fn is_simple(adj: Seq<Seq<bool>>) -> bool {
    &&& forall|i: int| 0 <= i < adj.len() ==> (#[trigger] adj[i]).len() == adj.len()
    &&& forall|i: int| 0 <= i < adj.len() ==> !(#[trigger] adj[i])[i]
    &&& forall|i: int, j: int|
        0 <= i < adj.len() && 0 <= j < adj.len() ==> adj[i][j] == adj[j][i]
}

/// Number of edges `{i, j}` with `j < i < k` and both ends in `s`.
pub open spec fn pairs_below(adj: Seq<Seq<bool>>, s: Seq<bool>, k: int) -> nat
    decreases k,
{
    if k <= 0 {
        0
    } else {
        pairs_below(adj, s, k - 1) + if s[k - 1] {
            count_both(adj[k - 1], s, k - 1)
        } else {
            0nat
        }
    }
}

/// m(S): the number of edges with both ends in `s`.
pub open spec fn edges_within(adj: Seq<Seq<bool>>, s: Seq<bool>) -> nat {
    pairs_below(adj, s, adj.len() as int)
}

/// |N(v) ∩ S|: the number of neighbours of `v` that lie in `s`.
pub open spec fn inner_degree(adj: Seq<Seq<bool>>, s: Seq<bool>, v: int) -> nat {
    count_both(adj[v], s, adj.len() as int)
}

/// The set of all `n` vertices.
pub open spec fn all_set(n: nat) -> Seq<bool> {
    Seq::new(n, |i: int| true)
}

/// The number of edges of the graph.
pub open spec fn edge_total(adj: Seq<Seq<bool>>) -> nat {
    edges_within(adj, all_set(adj.len()))
}

/// The matrix with `n` vertices and no edge.
pub open spec fn edgeless(n: nat) -> Seq<Seq<bool>> {
    Seq::new(n, |i: int| Seq::new(n, |j: int| false))
}

/// The matrix `adj` with the edge `{u, v}` added.
pub open spec fn with_edge(adj: Seq<Seq<bool>>, u: int, v: int) -> Seq<Seq<bool>> {
    let one_way = adj.update(u, adj[u].update(v, true));
    one_way.update(v, one_way[v].update(u, true))
}

/// Some pair of `edges` joins `i` and `j`, in either direction.
pub open spec fn joined(edges: Seq<(usize, usize)>, i: int, j: int) -> bool {
    exists|k: int|
        0 <= k < edges.len() && ((#[trigger] edges[k]).0 == i && edges[k].1 == j || edges[k].0 == j
            && edges[k].1 == i)
}

/// The matrix on `n` vertices whose edges are the pairs of `edges`.
pub open spec fn adjacency_of(n: nat, edges: Seq<(usize, usize)>) -> Seq<Seq<bool>> {
    Seq::new(n, |i: int| Seq::new(n, |j: int| joined(edges, i, j)))
}

/// Every pair names two different vertices below `n`.
pub open spec fn valid_edges(n: nat, edges: Seq<(usize, usize)>) -> bool {
    forall|k: int|
        0 <= k < edges.len() ==> (#[trigger] edges[k]).0 < n && edges[k].1 < n && edges[k].0
            != edges[k].1
}

/// The vertices below `k` span at most as many edges as a clique on them.
pub proof fn lemma_pairs_below_bound(adj: Seq<Seq<bool>>, s: Seq<bool>, k: int)
    requires
        0 <= k,
    ensures
        2 * pairs_below(adj, s, k) <= k * (k - 1),
    decreases k,
{
    if k > 0 {
        lemma_pairs_below_bound(adj, s, k - 1);
        lemma_count_both_bound(adj[k - 1], s, k - 1);
        assert(k * (k - 1) == (k - 1) * ((k - 1) - 1) + 2 * (k - 1)) by (nonlinear_arith);
    } else {
        assert(k * (k - 1) == 0) by (nonlinear_arith)
            requires k == 0;
    }
}

/// The members below `k` span at most as many edges as a clique on them.
pub proof fn lemma_pairs_clique_bound(adj: Seq<Seq<bool>>, s: Seq<bool>, k: int)
    requires
        0 <= k,
    ensures
        2 * pairs_below(adj, s, k) <= count_true(s, k) * (count_true(s, k) - 1),
    decreases k,
{
    if k > 0 {
        lemma_pairs_clique_bound(adj, s, k - 1);
        lemma_count_both_bound(adj[k - 1], s, k - 1);
        let c = count_true(s, k - 1) as int;
        assert((c + 1) * ((c + 1) - 1) == c * (c - 1) + 2 * c) by (nonlinear_arith);
    } else {
        assert(0 * (0 - 1) == 0) by (nonlinear_arith);
    }
}

/// Under the full set, a row's count with the set is the row's own count.
pub proof fn lemma_count_both_all(a: Seq<bool>, n: nat, k: int)
    requires
        0 <= k <= n,
    ensures
        count_both(a, all_set(n), k) == count_true(a, k),
    decreases k,
{
    if k > 0 {
        lemma_count_both_all(a, n, k - 1);
    }
}

/// Taking one more pair joins exactly the two ends of that pair, both ways.
pub proof fn lemma_joined_take(edges: Seq<(usize, usize)>, k: int, i: int, j: int)
    requires
        0 <= k < edges.len(),
    ensures
        joined(edges.take(k + 1), i, j) == (joined(edges.take(k), i, j) || (edges[k].0 == i
            && edges[k].1 == j) || (edges[k].0 == j && edges[k].1 == i)),
{
    let a = edges.take(k);
    let b = edges.take(k + 1);
    if joined(a, i, j) {
        let w = choose|w: int|
            0 <= w < a.len() && ((#[trigger] a[w]).0 == i && a[w].1 == j || a[w].0 == j && a[w].1
                == i);
        assert(b[w] == a[w]);
    }
    if (edges[k].0 == i && edges[k].1 == j) || (edges[k].0 == j && edges[k].1 == i) {
        assert(b[k] == edges[k]);
    }
    if joined(b, i, j) {
        let w = choose|w: int|
            0 <= w < b.len() && ((#[trigger] b[w]).0 == i && b[w].1 == j || b[w].0 == j && b[w].1
                == i);
        if w < k {
            assert(a[w] == b[w]);
        }
    }
}

/// Pairs of vertices in the order in which the edge list gives them.
pub open spec fn pair_before(a: (usize, usize), b: (usize, usize)) -> bool {
    a.0 < b.0 || (a.0 == b.0 && a.1 < b.1)
}

/// Undirected simple graph on the vertices `0 .. n`.
#[derive(Debug)]
pub struct Graph {
    adj: Vec<Bitmap>,
}

impl View for Graph {
    type V = Seq<Seq<bool>>;

    closed spec fn view(&self) -> Seq<Seq<bool>> {
        Seq::new(self.adj@.len(), |i: int| self.adj@[i]@)
    }
}

impl Clone for Graph {
    fn clone(&self) -> (r: Self)
        ensures
            r@ == self@,
    {
        let n = self.adj.len();
        let mut rows: Vec<Bitmap> = Vec::with_capacity(n);
        let mut i: usize = 0;
        while i < n
            invariant
                i <= n,
                n == self.adj@.len(),
                rows@.len() == i,
                forall|k: int| 0 <= k < i ==> (#[trigger] rows@[k])@ == self.adj@[k]@,
            decreases n - i,
        {
            rows.push(self.adj[i].clone());
            i += 1;
        }
        let r = Graph { adj: rows };
        assert(r@ =~= self@);
        r
    }
}

impl Graph {
    /// The matrix is that of a simple graph, and its `n * n` bits are addressable.
    pub open spec fn wf(&self) -> bool {
        &&& is_simple(self@)
        &&& self@.len() * self@.len() <= usize::MAX
    }

    /// Empty graph with `n` isolated vertices.
    pub fn with_vertices(n: usize) -> (g: Graph)
        requires
            n * n <= usize::MAX,
        ensures
            g.wf(),
            g@ == edgeless(n as nat),
    {
        let mut rows: Vec<Bitmap> = Vec::with_capacity(n);
        let mut i: usize = 0;
        while i < n
            invariant
                i <= n,
                n * n <= usize::MAX,
                rows@.len() == i,
                forall|k: int| 0 <= k < i
                    ==> (#[trigger] rows@[k])@ == Seq::new(n as nat, |j: int| false),
            decreases n - i,
        {
            proof {
                lemma_square_addressable(n);
            }
            rows.push(bits_repeat(false, n));
            i += 1;
        }
        let g = Graph { adj: rows };
        assert(g@ =~= edgeless(n as nat));
        g
    }

    /// Number of vertices.
    pub fn n(&self) -> (r: usize)
        ensures
            r == self@.len(),
    {
        self.adj.len()
    }

    /// The adjacency row of `v`.
    pub fn neigh_row(&self, v: usize) -> (r: &Bitmap)
        requires
            v < self@.len(),
        ensures
            r@ == self@[v as int],
    {
        &self.adj[v]
    }

    /// Degree of vertex `v`.
    pub fn degree(&self, v: usize) -> (r: usize)
        requires
            v < self@.len(),
        ensures
            r == popcount(self@[v as int]),
    {
        bits_count_ones(&self.adj[v])
    }

    /// Builds the graph on `n` vertices from a list of undirected edges.
    pub fn from_edge_list(n: usize, edges: &[(usize, usize)]) -> (g: Graph)
        requires
            n * n <= usize::MAX,
            valid_edges(n as nat, edges@),
        ensures
            g.wf(),
            g@ == adjacency_of(n as nat, edges@),
    {
        let mut g = Graph::with_vertices(n);
        proof {
            let none = adjacency_of(n as nat, edges@.take(0));
            assert forall|i: int| 0 <= i < n implies g@[i] =~= none[i] by {}
            assert(g@ =~= none);
        }
        let mut k: usize = 0;
        while k < edges.len()
            invariant
                k <= edges@.len(),
                valid_edges(n as nat, edges@),
                g.wf(),
                g@ == adjacency_of(n as nat, edges@.take(k as int)),
            decreases edges@.len() - k,
        {
            let (u, v) = edges[k];
            let ghost before = g@;
            g.add_edge(u, v);
            proof {
                let after = adjacency_of(n as nat, edges@.take(k + 1));
                assert forall|i: int, j: int| 0 <= i < n && 0 <= j < n implies g@[i][j]
                    == after[i][j] by {
                    lemma_joined_take(edges@, k as int, i, j);
                }
                assert forall|i: int| 0 <= i < n implies g@[i] =~= after[i] by {}
                assert(g@ =~= after);
            }
            k += 1;
        }
        assert(edges@.take(k as int) =~= edges@);
        g
    }

    /// Number of edges, each counted once.
    pub fn m(&self) -> (r: usize)
        requires
            self.wf(),
        ensures
            r == edge_total(self@),
    {
        let n = self.adj.len();
        let mut m: usize = 0;
        let mut i: usize = 0;
        while i < n
            invariant
                i <= n,
                n == self@.len(),
                self.wf(),
                m == pairs_below(self@, all_set(n as nat), i as int),
            decreases n - i,
        {
            let row = &self.adj[i];
            assert(row@ == self@[i as int]);
            let mut j: usize = 0;
            let mut c: usize = 0;
            while j < i
                invariant
                    j <= i < n,
                    row@.len() == n,
                    c == count_true(row@, j as int),
                decreases i - j,
            {
                proof {
                    lemma_count_true_bound(row@, j as int);
                }
                if bit_at(row, j) {
                    c += 1;
                }
                j += 1;
            }
            proof {
                lemma_count_both_all(row@, n as nat, i as int);
                lemma_pairs_below_bound(self@, all_set(n as nat), i as int + 1);
                assert((i + 1) * i <= n * n) by (nonlinear_arith)
                    requires i < n;
            }
            m += c;
            i += 1;
        }
        m
    }

    /// All edges as pairs `(u, v)` with `u < v`, ordered by `u`, then by `v`.
    pub fn edge_list(&self) -> (r: Vec<(usize, usize)>)
        requires
            self.wf(),
        ensures
            forall|k: int|
                0 <= k < r@.len() ==> (#[trigger] r@[k]).0 < r@[k].1 < self@.len()
                    && self@[r@[k].0 as int][r@[k].1 as int],
            forall|k: int, l: int| 0 <= k < l < r@.len() ==> pair_before(r@[k], r@[l]),
            forall|i: int, j: int|
                0 <= i < j < self@.len() && #[trigger] self@[i][j] ==> r@.contains(
                    (i as usize, j as usize),
                ),
    {
        let n = self.adj.len();
        let mut edges: Vec<(usize, usize)> = Vec::new();
        let mut i: usize = 0;
        while i < n
            invariant
                i <= n,
                n == self@.len(),
                self.wf(),
                forall|k: int|
                    0 <= k < edges@.len() ==> (#[trigger] edges@[k]).0 < edges@[k].1 < n
                        && edges@[k].0 < i && self@[edges@[k].0 as int][edges@[k].1 as int],
                forall|k: int, l: int|
                    0 <= k < l < edges@.len() ==> pair_before(edges@[k], edges@[l]),
                forall|a: int, b: int|
                    0 <= a < b < n && a < i && #[trigger] self@[a][b] ==> edges@.contains(
                        (a as usize, b as usize),
                    ),
            decreases n - i,
        {
            let row = &self.adj[i];
            assert(row@ == self@[i as int]);
            let mut j: usize = i + 1;
            while j < n
                invariant
                    i < j <= n,
                    n == self@.len(),
                    self.wf(),
                    row@ == self@[i as int],
                    forall|k: int|
                        0 <= k < edges@.len() ==> (#[trigger] edges@[k]).0 < edges@[k].1 < n
                            && (edges@[k].0 < i || (edges@[k].0 == i && edges@[k].1 < j))
                            && self@[edges@[k].0 as int][edges@[k].1 as int],
                    forall|k: int, l: int|
                        0 <= k < l < edges@.len() ==> pair_before(edges@[k], edges@[l]),
                    forall|a: int, b: int|
                        0 <= a < b < n && (a < i || (a == i && b < j)) && #[trigger] self@[a][b]
                            ==> edges@.contains((a as usize, b as usize)),
                decreases n - j,
            {
                if bit_at(row, j) {
                    let ghost before = edges@;
                    edges.push((i, j));
                    proof {
                        assert(edges@[before.len() as int] == (i, j));
                        assert forall|a: int, b: int|
                            0 <= a < b < n && (a < i || (a == i && b < j + 1))
                                && #[trigger] self@[a][b] implies edges@.contains(
                            (a as usize, b as usize),
                        ) by {
                            if a == i && b == j {
                                assert(edges@[before.len() as int] == (a as usize, b as usize));
                            } else {
                                assert(before.contains((a as usize, b as usize)));
                                let w = choose|w: int|
                                    0 <= w < before.len() && before[w] == (a as usize, b as usize);
                                assert(edges@[w] == before[w]);
                            }
                        }
                    }
                }
                j += 1;
            }
            i += 1;
        }
        edges
    }

    /// Adds the edge `{u, v}`.
    pub fn add_edge(&mut self, u: usize, v: usize)
        requires
            old(self).wf(),
            u < old(self)@.len(),
            v < old(self)@.len(),
            u != v,
        ensures
            final(self).wf(),
            final(self)@ == with_edge(old(self)@, u as int, v as int),
    {
        assert(old(self)@[u as int] == old(self).adj@[u as int]@);
        assert(old(self)@[v as int] == old(self).adj@[v as int]@);
        set_bit(&mut self.adj[u], v, true);
        set_bit(&mut self.adj[v], u, true);
        assert(self@ =~= with_edge(old(self)@, u as int, v as int));
    }
}

/// A length whose square is addressable is one `bitvec` can hold.
pub proof fn lemma_square_addressable(n: usize)
    requires
        n * n <= usize::MAX,
    ensures
        n <= max_bits(),
{
    if n > 8 {
        assert(n * n >= 8 * n) by (nonlinear_arith)
            requires n > 8;
    }
}

} // verus!
