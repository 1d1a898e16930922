//! Candidate solution: a vertex subset S of one graph, with |S| and m(S) kept
//! up to date under every change.

use crate::bits::{
    bit_at, bits_count_ones, bits_fill, bits_repeat, count_both, count_true,
    lemma_count_both_agree, lemma_count_both_bound, lemma_count_both_update,
    lemma_count_true_bound, lemma_count_true_update, popcount, set_bit, Bitmap,
};
use crate::graph::{
    edges_within, inner_degree, is_simple, lemma_pairs_below_bound, lemma_pairs_clique_bound,
    lemma_square_addressable, pairs_below, Graph,
};
use crate::ratio::Ratio;
use vstd::prelude::*;

verus! {

/// What a solution is, mathematically: the membership bitmap and the two
/// cached counts.
pub struct Subset {
    pub members: Seq<bool>,
    pub size: nat,
    pub edges: nat,
}

impl Subset {
    /// The empty subset of `n` vertices.
    pub open spec fn empty(n: nat) -> Subset {
        Subset { members: Seq::new(n, |i: int| false), size: 0, edges: 0 }
    }

    /// Cache consistency: the counts are those of the bitmap.
    pub open spec fn consistent(self, adj: Seq<Seq<bool>>) -> bool {
        &&& self.members.len() == adj.len()
        &&& self.size == popcount(self.members)
        &&& self.edges == edges_within(adj, self.members)
    }

    /// The subset after `add(v)`.
    pub open spec fn add(self, adj: Seq<Seq<bool>>, v: int) -> Subset {
        if self.members[v] {
            self
        } else {
            Subset {
                members: self.members.update(v, true),
                size: self.size + 1,
                edges: self.edges + inner_degree(adj, self.members, v),
            }
        }
    }

    /// The subset after `remove(v)`.
    pub open spec fn remove(self, adj: Seq<Seq<bool>>, v: int) -> Subset {
        if !self.members[v] {
            self
        } else {
            Subset {
                members: self.members.update(v, false),
                size: (self.size - 1) as nat,
                edges: (self.edges - inner_degree(adj, self.members, v)) as nat,
            }
        }
    }

    /// The subset after swapping `u` out and `v` in.
    pub open spec fn swap(self, adj: Seq<Seq<bool>>, u: int, v: int) -> Subset {
        self.remove(adj, u).add(adj, v)
    }

    /// Density 2 m(S) / (|S| (|S| - 1)), and 0 below two vertices.
    pub open spec fn density(self) -> Ratio {
        density_of(self.size, self.edges)
    }

    /// Density at least `gamma`.
    pub open spec fn feasible(self, gamma: Ratio) -> bool {
        self.density().ge_spec(gamma)
    }
}

/// The density of a subset of `size` vertices that spans `edges` edges.
pub open spec fn density_of(size: nat, edges: nat) -> Ratio {
    if size < 2 {
        Ratio { num: 0, den: 1 }
    } else {
        Ratio { num: (2 * edges) as usize, den: (size * (size - 1)) as usize }
    }
}

/// Number of edges of a clique on `k` vertices.
pub open spec fn clique_edges(k: nat) -> nat {
    (k * (k - 1) / 2) as nat
}

/// The least edge count with which `k` vertices reach density `gamma`:
/// `ceil(gamma * k (k - 1) / 2)`.
pub open spec fn required_edges(gamma: Ratio, k: nat) -> nat {
    gamma.ceil_of_spec(clique_edges(k) as int) as nat
}

/// A clique on `k` vertices has exactly half of `k (k - 1)` edges.
pub proof fn lemma_clique_edges_twice(k: nat)
    ensures
        2 * clique_edges(k) == k * (k - 1),
    decreases k,
{
    if k > 0 {
        lemma_clique_edges_twice((k - 1) as nat);
        assert(k * (k - 1) == (k - 1) * ((k - 1) - 1) + 2 * (k - 1)) by (nonlinear_arith);
    } else {
        assert(0 * (0 - 1) == 0) by (nonlinear_arith);
    }
}

/// Density and edge count say the same: a subset of at least two vertices has
/// density at least `gamma` exactly if it spans the required number of edges.
/// A smaller subset that has density at least `gamma` spans it as well.
pub proof fn lemma_feasible_by_edges(sub: Subset, gamma: Ratio)
    requires
        gamma.wf(),
        2 * sub.edges <= usize::MAX,
        sub.size * (sub.size - 1) <= usize::MAX,
    ensures
        sub.size >= 2 ==> (sub.feasible(gamma) <==> sub.edges >= required_edges(gamma, sub.size)),
        sub.feasible(gamma) ==> sub.edges >= required_edges(gamma, sub.size),
{
    let k = sub.size as int;
    let e = sub.edges as int;
    let c = clique_edges(sub.size) as int;
    let a = gamma.num * c;
    let den = gamma.den as int;
    let r = crate::ratio::ceil_div(a, den);
    lemma_clique_edges_twice(sub.size);
    assert(a >= 0) by (nonlinear_arith)
        requires a == gamma.num * c, gamma.num >= 0, c >= 0;
    crate::ratio::lemma_ceil_div(a, den);
    if r < 0 {
        assert(r * den < 0) by (nonlinear_arith)
            requires r < 0, den > 0;
    }
    if k >= 2 {
        assert(k * (k - 1) >= 2) by (nonlinear_arith)
            requires k >= 2;
        assert(gamma.num * (k * (k - 1)) == 2 * a) by (nonlinear_arith)
            requires 2 * c == k * (k - 1), a == gamma.num * c;
        assert((2 * e) * den == 2 * (e * den)) by (nonlinear_arith);
        if e >= r {
            assert(e * den >= r * den) by (nonlinear_arith)
                requires e >= r, den > 0;
        } else {
            assert(e * den <= (r - 1) * den) by (nonlinear_arith)
                requires e <= r - 1, den > 0;
        }
    } else {
        assert(k * (k - 1) == 0) by (nonlinear_arith)
            requires 0 <= k < 2;
        assert(a == 0) by (nonlinear_arith)
            requires a == gamma.num * c, c == 0;
        if r >= 1 {
            assert((r - 1) * den >= 0) by (nonlinear_arith)
                requires r >= 1, den > 0;
        }
    }
}

/// `k (k - 1) / 2`, for a `k` whose square is addressable.
pub fn clique_size(k: usize) -> (r: usize)
    requires
        k * k <= usize::MAX,
    ensures
        r == clique_edges(k as nat),
        r <= k * k,
{
    if k < 2 {
        assert(k * (k - 1) == 0) by (nonlinear_arith)
            requires 0 <= k < 2;
        0
    } else {
        assert(k * (k - 1) <= k * k) by (nonlinear_arith)
            requires k >= 2;
        k * (k - 1) / 2
    }
}

/// `ceil(gamma * k (k - 1) / 2)`: the edges that `k` vertices need for density `gamma`.
pub fn edges_needed(gamma: Ratio, k: usize) -> (r: usize)
    requires
        gamma.is_probability(),
        k * k <= usize::MAX,
    ensures
        r == required_edges(gamma, k as nat),
        r <= clique_edges(k as nat),
{
    gamma.ceil_of(clique_size(k))
}

/// Putting `v` into `s` adds, among the pairs below `k`, those that join `v`
/// to a member below `k`.
pub proof fn lemma_pairs_insert(adj: Seq<Seq<bool>>, s: Seq<bool>, v: int, k: int)
    requires
        is_simple(adj),
        s.len() == adj.len(),
        0 <= v < adj.len(),
        !s[v],
        0 <= k <= adj.len(),
    ensures
        pairs_below(adj, s.update(v, true), k) == pairs_below(adj, s, k) + if k > v {
            count_both(adj[v], s, k)
        } else {
            0nat
        },
    decreases k,
{
    if k > 0 {
        let i = k - 1;
        let t = s.update(v, true);
        lemma_pairs_insert(adj, s, v, i);
        if i < v {
            lemma_count_both_agree(adj[i], s, t, i);
        } else if i == v {
            lemma_count_both_agree(adj[v], s, t, v);
        } else {
            lemma_count_both_update(adj[i], s, v, true, i);
            assert(adj[i][v] == adj[v][i]);
        }
    }
}

/// Cache consistency survives `add`.
pub proof fn lemma_add_consistent(adj: Seq<Seq<bool>>, s: Subset, v: int)
    requires
        is_simple(adj),
        s.consistent(adj),
        0 <= v < adj.len(),
    ensures
        s.add(adj, v).consistent(adj),
{
    if !s.members[v] {
        lemma_pairs_insert(adj, s.members, v, adj.len() as int);
        lemma_count_true_update(s.members, v, true, adj.len() as int);
    }
}

/// Cache consistency survives `remove`.
pub proof fn lemma_remove_consistent(adj: Seq<Seq<bool>>, s: Subset, v: int)
    requires
        is_simple(adj),
        s.consistent(adj),
        0 <= v < adj.len(),
    ensures
        s.remove(adj, v).consistent(adj),
        s.members[v] ==> s.size >= 1 && s.edges >= inner_degree(adj, s.members, v),
{
    if s.members[v] {
        let n = adj.len() as int;
        let t = s.members.update(v, false);
        assert(t.update(v, true) =~= s.members);
        lemma_pairs_insert(adj, t, v, n);
        lemma_count_both_update(adj[v], s.members, v, false, n);
        lemma_count_true_update(s.members, v, false, n);
    }
}

/// Adding a vertex that was absent and removing it again gives back the same
/// bitmap, size and edge count.
pub proof fn lemma_add_remove_identity(adj: Seq<Seq<bool>>, s: Subset, v: int)
    requires
        is_simple(adj),
        s.members.len() == adj.len(),
        0 <= v < adj.len(),
        !s.members[v],
    ensures
        s.add(adj, v).remove(adj, v) == s,
{
    let n = adj.len() as int;
    let a = s.add(adj, v);
    assert(a.members.update(v, false) =~= s.members);
    lemma_count_both_update(adj[v], s.members, v, true, n);
}

/// A consistent subset spans at most as many edges as a clique of its size,
/// and no more vertices than the graph has.
pub proof fn lemma_subset_bounds(adj: Seq<Seq<bool>>, s: Subset)
    requires
        s.consistent(adj),
    ensures
        s.size <= adj.len(),
        2 * s.edges <= adj.len() * (adj.len() - 1),
        2 * s.edges <= s.size * (s.size - 1),
        s.size < 2 ==> s.edges == 0,
{
    lemma_count_true_bound(s.members, adj.len() as int);
    lemma_pairs_below_bound(adj, s.members, adj.len() as int);
    lemma_pairs_clique_bound(adj, s.members, adj.len() as int);
    if s.size < 2 {
        assert(s.size * (s.size - 1) == 0) by (nonlinear_arith)
            requires 0 <= s.size < 2;
    }
}

/// Mutable quasi-clique candidate bound to a single graph.
#[derive(Debug)]
pub struct Solution<'g> {
    graph: &'g Graph,
    vertices: Bitmap,
    edge_count: usize,
    size: usize,
}

impl<'g> View for Solution<'g> {
    type V = Subset;

    closed spec fn view(&self) -> Subset {
        Subset {
            members: self.vertices@,
            size: self.size as nat,
            edges: self.edge_count as nat,
        }
    }
}

impl<'g> Clone for Solution<'g> {
    fn clone(&self) -> (r: Self)
        ensures
            r@ == self@,
            r.host() == self.host(),
    {
        Solution {
            graph: self.graph,
            vertices: self.vertices.clone(),
            edge_count: self.edge_count,
            size: self.size,
        }
    }
}

impl<'g> Solution<'g> {
    /// The graph the solution is bound to.
    pub closed spec fn host(&self) -> Graph {
        *self.graph
    }

    /// The graph is well formed and the cached counts are those of the bitmap.
    pub open spec fn wf(&self) -> bool {
        &&& self.host().wf()
        &&& self@.consistent(self.host()@)
    }

    /// Empty solution.
    pub fn new(graph: &'g Graph) -> (r: Self)
        requires
            graph.wf(),
        ensures
            r.wf(),
            r.host() == *graph,
            r@ == Subset::empty(graph@.len()),
    {
        let n = graph.n();
        proof {
            lemma_square_addressable(n);
        }
        let r = Solution { graph, vertices: bits_repeat(false, n), edge_count: 0, size: 0 };
        proof {
            lemma_empty_counts(graph@, n as int);
        }
        r
    }

    /// Builds the solution whose members are the set bits of `subset`.
    pub fn from_bitset(graph: &'g Graph, subset: &Bitmap) -> (r: Self)
        requires
            graph.wf(),
            subset@.len() == graph@.len(),
        ensures
            r.wf(),
            r.host() == *graph,
            r@.members == subset@,
    {
        let n = graph.n();
        let size = bits_count_ones(subset);
        let mut e: usize = 0;
        let mut i: usize = 0;
        while i < n
            invariant
                i <= n,
                n == graph@.len(),
                graph.wf(),
                subset@.len() == n,
                e == pairs_below(graph@, subset@, i as int),
            decreases n - i,
        {
            proof {
                lemma_pairs_below_bound(graph@, subset@, i as int + 1);
                assert((i + 1) * i <= n * n) by (nonlinear_arith)
                    requires i < n;
            }
            if bit_at(subset, i) {
                let row = graph.neigh_row(i);
                let mut j: usize = 0;
                let mut c: usize = 0;
                while j < i
                    invariant
                        j <= i < n,
                        row@.len() == n,
                        subset@.len() == n,
                        c == count_both(row@, subset@, j as int),
                    decreases i - j,
                {
                    proof {
                        lemma_count_both_bound(row@, subset@, j as int);
                    }
                    if bit_at(row, j) && bit_at(subset, j) {
                        c += 1;
                    }
                    j += 1;
                }
                e += c;
            }
            i += 1;
        }
        Solution { graph, vertices: subset.clone(), edge_count: e, size }
    }

    /// |S|.
    pub fn size(&self) -> (r: usize)
        ensures
            r == self@.size,
    {
        self.size
    }

    /// m(S).
    pub fn edges(&self) -> (r: usize)
        ensures
            r == self@.edges,
    {
        self.edge_count
    }

    /// The membership bitmap.
    pub fn bitset(&self) -> (r: &Bitmap)
        ensures
            r@ == self@.members,
    {
        &self.vertices
    }

    /// The graph the solution is bound to.
    pub fn graph(&self) -> (r: &'g Graph)
        ensures
            *r == self.host(),
    {
        self.graph
    }

    /// |N(v) ∩ S|: how many neighbours of `v` are members.
    pub fn inner_degree(&self, v: usize) -> (r: usize)
        requires
            self.wf(),
            v < self@.members.len(),
        ensures
            r == inner_degree(self.host()@, self@.members, v as int),
            r <= self@.size,
    {
        let n = self.graph.n();
        let row = self.graph.neigh_row(v);
        let mut j: usize = 0;
        let mut c: usize = 0;
        while j < n
            invariant
                j <= n,
                row@.len() == n,
                self.vertices@.len() == n,
                c == count_both(row@, self.vertices@, j as int),
            decreases n - j,
        {
            proof {
                lemma_count_both_bound(row@, self.vertices@, j as int);
            }
            if bit_at(row, j) && bit_at(&self.vertices, j) {
                c += 1;
            }
            j += 1;
        }
        proof {
            lemma_count_both_bound(row@, self.vertices@, n as int);
        }
        c
    }

    /// Density 2 m(S) / (|S| (|S| - 1)); 0 for |S| < 2.
    pub fn density(&self) -> (r: Ratio)
        requires
            self.wf(),
        ensures
            r == self@.density(),
            r.is_probability(),
            self@.size >= 2 ==> r.num == 2 * self@.edges && r.den == self@.size * (self@.size - 1),
    {
        proof {
            lemma_density_fits(self.host()@, self@);
            lemma_subset_bounds(self.host()@, self@);
            if self.size >= 2 {
                assert(self.size * (self.size - 1) > 0) by (nonlinear_arith)
                    requires self.size >= 2;
            }
        }
        if self.size < 2 {
            Ratio { num: 0, den: 1 }
        } else {
            Ratio { num: 2 * self.edge_count, den: self.size * (self.size - 1) }
        }
    }

    /// Whether the density is at least `gamma`.
    pub fn is_gamma_feasible(&self, gamma: Ratio) -> (r: bool)
        requires
            self.wf(),
        ensures
            r == self@.feasible(gamma),
    {
        let d = self.density();
        d.ge(&gamma)
    }

    /// Adds vertex `v`; nothing changes if it is a member already.
    pub fn add(&mut self, v: usize)
        requires
            old(self).wf(),
            v < old(self)@.members.len(),
        ensures
            final(self).wf(),
            final(self).host() == old(self).host(),
            final(self)@ == old(self)@.add(old(self).host()@, v as int),
    {
        if bit_at(&self.vertices, v) {
            return ;
        }
        let added = self.inner_degree(v);
        proof {
            lemma_add_consistent(self.host()@, self@, v as int);
            lemma_subset_bounds(self.host()@, self@.add(self.host()@, v as int));
            lemma_density_fits(self.host()@, self@.add(self.host()@, v as int));
        }
        let size = self.size + 1;
        let edges = self.edge_count + added;
        set_bit(&mut self.vertices, v, true);
        self.size = size;
        self.edge_count = edges;
    }

    /// Removes vertex `v`; nothing changes if it is no member.
    pub fn remove(&mut self, v: usize)
        requires
            old(self).wf(),
            v < old(self)@.members.len(),
        ensures
            final(self).wf(),
            final(self).host() == old(self).host(),
            final(self)@ == old(self)@.remove(old(self).host()@, v as int),
    {
        if !bit_at(&self.vertices, v) {
            return ;
        }
        let removed = self.inner_degree(v);
        proof {
            lemma_remove_consistent(self.host()@, self@, v as int);
        }
        let size = self.size - 1;
        let edges = self.edge_count - removed;
        set_bit(&mut self.vertices, v, false);
        self.size = size;
        self.edge_count = edges;
    }

    /// Flips the membership of `v`; returns whether `v` is a member afterwards.
    pub fn toggle(&mut self, v: usize) -> (r: bool)
        requires
            old(self).wf(),
            v < old(self)@.members.len(),
        ensures
            final(self).wf(),
            final(self).host() == old(self).host(),
            r == !old(self)@.members[v as int],
            final(self)@ == if r {
                old(self)@.add(old(self).host()@, v as int)
            } else {
                old(self)@.remove(old(self).host()@, v as int)
            },
    {
        if bit_at(&self.vertices, v) {
            self.remove(v);
            false
        } else {
            self.add(v);
            true
        }
    }

    /// Empties S.
    pub fn clear(&mut self)
        requires
            old(self).wf(),
        ensures
            final(self).wf(),
            final(self).host() == old(self).host(),
            final(self)@ == Subset::empty(old(self)@.members.len()),
    {
        bits_fill(&mut self.vertices, false);
        self.size = 0;
        self.edge_count = 0;
        proof {
            lemma_empty_counts(self.host()@, self.host()@.len() as int);
        }
    }
}

/// The empty subset has no member and spans no edge.
pub proof fn lemma_empty_counts(adj: Seq<Seq<bool>>, k: int)
    requires
        0 <= k <= adj.len(),
    ensures
        count_true(Subset::empty(adj.len()).members, k) == 0,
        pairs_below(adj, Subset::empty(adj.len()).members, k) == 0,
    decreases k,
{
    if k > 0 {
        lemma_empty_counts(adj, k - 1);
    }
}

/// With an addressable matrix, both parts of a density fit a machine word.
pub proof fn lemma_density_fits(adj: Seq<Seq<bool>>, s: Subset)
    requires
        s.consistent(adj),
        adj.len() * adj.len() <= usize::MAX,
    ensures
        adj.len() <= usize::MAX,
        s.size <= usize::MAX,
        2 * s.edges <= usize::MAX,
        s.size * s.size <= usize::MAX,
        s.size >= 1 ==> s.size * (s.size - 1) <= usize::MAX,
{
    lemma_subset_bounds(adj, s);
    let n = adj.len() as int;
    let k = s.size as int;
    assert(n * (n - 1) <= n * n) by (nonlinear_arith)
        requires n >= 0;
    assert(k * k <= n * n) by (nonlinear_arith)
        requires 0 <= k <= n;
    assert(k * (k - 1) <= k * k) by (nonlinear_arith)
        requires k >= 0;
    assert(n <= n * n) by (nonlinear_arith)
        requires n >= 0;
}

} // verus!
