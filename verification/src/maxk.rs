//! Outer max-k search: fixed-k searches over growing `k`, with a bound on the
//! degrees that ends the search as soon as a size is out of reach.

use crate::bits::{lemma_count_true_bound, popcount};
use crate::construct::{greedy_until_gamma, has_edge};
use crate::graph::Graph;
use crate::params::Params;
use crate::restart::solve_fixed_k;
use crate::solution::{edges_needed, lemma_subset_bounds, Solution};
use crate::tabu::max_tenure;
use rand_chacha::ChaCha8Rng;
use vstd::prelude::*;

verus! {

/// The degree of each vertex, by index.
pub open spec fn degree_seq(adj: Seq<Seq<bool>>) -> Seq<usize> {
    Seq::new(adj.len(), |v: int| popcount(adj[v]) as usize)
}

/// The differences of neighbouring entries of a prefix table.
pub open spec fn steps(pref: Seq<usize>) -> Seq<usize> {
    Seq::new((pref.len() - 1) as nat, |i: int| (pref[i + 1] - pref[i]) as usize)
}

/// No entry is smaller than the one after it.
pub open spec fn descending(s: Seq<usize>) -> bool {
    forall|i: int, j: int| 0 <= i <= j < s.len() ==> s[i] >= s[j]
}

/// `pref` is the table of prefix sums of the degrees in descending order:
/// `pref[i]` is the sum of the `i` largest degrees.
pub open spec fn is_degree_prefix(adj: Seq<Seq<bool>>, pref: Seq<usize>) -> bool {
    &&& pref.len() == adj.len() + 1
    &&& pref[0] == 0
    &&& forall|i: int| 0 <= i < adj.len() ==> pref[i] <= #[trigger] pref[i + 1]
    &&& descending(steps(pref))
    &&& steps(pref).to_multiset() == degree_seq(adj).to_multiset()
}

/// The first `i` terms of the sum in `UB_edges(k)`: each step of the table,
/// capped at `k - 1`.
pub open spec fn capped_sum(pref: Seq<usize>, k: int, i: int) -> int
    decreases i,
{
    if i <= 0 {
        0
    } else {
        let d = pref[i] - pref[i - 1];
        capped_sum(pref, k, i - 1) + if d < k - 1 { d } else { k - 1 }
    }
}

/// `UB_edges(k) = floor(1/2 * sum over i < k of min(deg_desc[i], k - 1))`.
pub open spec fn ub_edges_of(pref: Seq<usize>, k: int) -> int {
    capped_sum(pref, k, k) / 2
}

/// The items of `v`, largest first.
pub fn sorted_descending(v: &Vec<usize>) -> (r: Vec<usize>)
    ensures
        descending(r@),
        r@.to_multiset() == v@.to_multiset(),
{
    let mut out: Vec<usize> = Vec::new();
    let mut i: usize = 0;
    assert(v@.take(0) =~= out@);
    while i < v.len()
        invariant
            i <= v@.len(),
            out@.len() == i,
            descending(out@),
            out@.to_multiset() == v@.take(i as int).to_multiset(),
        decreases v@.len() - i,
    {
        let x = v[i];
        let mut pos: usize = 0;
        while pos < out.len() && out[pos] >= x
            invariant
                pos <= out@.len(),
                forall|j: int| 0 <= j < pos ==> out@[j] >= x,
            decreases out@.len() - pos,
        {
            pos += 1;
        }
        let ghost before = out@;
        out.insert(pos, x);
        proof {
            broadcast use vstd::seq_lib::to_multiset_insert;
            v@.take(i as int).to_multiset_ensures();
            assert(v@.take(i + 1) =~= v@.take(i as int).push(x));
            assert(out@ == before.insert(pos as int, x));
            assert forall|a: int, b: int| 0 <= a <= b < out@.len() implies out@[a] >= out@[b] by {
                if a < pos && b > pos {
                    assert(before[a] >= before[b - 1]);
                } else if a > pos {
                    assert(before[a - 1] >= before[b - 1]);
                } else if a < pos && b < pos {
                    assert(before[a] >= before[b]);
                } else if a == pos && b > pos {
                    assert(before[pos as int] >= before[b - 1]);
                }
            }
        }
        i += 1;
    }
    assert(v@.take(v@.len() as int) =~= v@);
    out
}

/// The prefix sums of the degrees in descending order.
pub fn degree_prefix(graph: &Graph) -> (pref: Vec<usize>)
    requires
        graph.wf(),
    ensures
        is_degree_prefix(graph@, pref@),
{
    let n = graph.n();
    let mut degs: Vec<usize> = Vec::with_capacity(n);
    let mut v: usize = 0;
    while v < n
        invariant
            v <= n,
            n == graph@.len(),
            graph.wf(),
            degs@.len() == v,
            forall|w: int| 0 <= w < v ==> degs@[w] == popcount(graph@[w]) && degs@[w] <= n,
        decreases n - v,
    {
        proof {
            lemma_count_true_bound(graph@[v as int], n as int);
        }
        degs.push(graph.degree(v));
        v += 1;
    }
    assert(degs@ =~= degree_seq(graph@));
    let sorted = sorted_descending(&degs);
    proof {
        sorted@.to_multiset_ensures();
        degs@.to_multiset_ensures();
        assert forall|i: int| 0 <= i < sorted@.len() implies sorted@[i] <= n by {
            assert(sorted@.contains(sorted@[i]));
            assert(sorted@.to_multiset().count(sorted@[i]) > 0);
            assert(degs@.contains(sorted@[i]));
        }
    }
    proof {
        assert(n < usize::MAX) by (nonlinear_arith)
            requires n * n <= usize::MAX, n <= usize::MAX, usize::MAX >= 2;
    }
    let mut pref: Vec<usize> = Vec::with_capacity(n + 1);
    pref.push(0);
    let mut i: usize = 0;
    while i < n
        invariant
            i <= n,
            n == sorted@.len(),
            n * n <= usize::MAX,
            forall|j: int| 0 <= j < n ==> sorted@[j] <= n,
            pref@.len() == i + 1,
            pref@[0] == 0,
            pref@[i as int] <= i * n,
            forall|j: int| 0 <= j < i ==> pref@[j] + sorted@[j] == #[trigger] pref@[j + 1],
        decreases n - i,
    {
        let last = pref[i];
        assert((i + 1) * n <= n * n && i * n + n == (i + 1) * n) by (nonlinear_arith)
            requires i < n;
        pref.push(last + sorted[i]);
        i += 1;
    }
    assert(steps(pref@) =~= sorted@);
    pref
}

/// Upper bound on the number of edges that any `k` vertices span.
pub fn ub_edges(prefix: &[usize], k: usize) -> (r: usize)
    requires
        k < prefix@.len(),
        forall|i: int| 0 <= i < k ==> prefix@[i] <= #[trigger] prefix@[i + 1],
    ensures
        r == ub_edges_of(prefix@, k as int),
{
    let mut total: usize = 0;
    let mut i: usize = 0;
    while i < k
        invariant
            i <= k < prefix@.len(),
            forall|j: int| 0 <= j < k ==> prefix@[j] <= #[trigger] prefix@[j + 1],
            total == capped_sum(prefix@, k as int, i as int),
            total <= prefix@[i as int] - prefix@[0],
        decreases k - i,
    {
        let di = prefix[i + 1] - prefix[i];
        total += if di < k - 1 { di } else { k - 1 };
        i += 1;
    }
    total / 2
}

/// Tenure bounds grow with the size of the subset.
pub proof fn lemma_max_tenure_monotone(a: nat, b: nat)
    requires
        a <= b,
    ensures
        max_tenure(a) <= max_tenure(b),
{
}

/// Searches for the largest subset of density at least the target.
///
/// Starts from a greedy subset and tries each larger size in turn with the
/// fixed-k search. The search ends at the first size that the degree bound
/// rules out, or at which the fixed-k search finds nothing.
pub fn solve_maxk<'g>(graph: &'g Graph, rng: &mut ChaCha8Rng, p: &Params) -> (best: Solution<'g>)
    requires
        graph.wf(),
        graph@.len() >= 2,
        p.wf(),
        p.budget_fits(graph@.len()),
    ensures
        best.wf(),
        best.host() == *graph,
        best@.size >= 2,
        best@.feasible(p.gamma_target) || best@.size == 2,
        has_edge(graph@) ==> best@.feasible(p.gamma_target),
{
    let mut best_sol = greedy_until_gamma(graph, p.gamma_target, rng);
    let k_lb = best_sol.size();
    let pref = degree_prefix(graph);
    let n = graph.n();
    proof {
        lemma_subset_bounds(graph@, best_sol@);
        assert(n < usize::MAX) by (nonlinear_arith)
            requires n * n <= usize::MAX, n >= 2;
    }
    let mut k: usize = k_lb;
    while k <= n
        invariant
            2 <= k_lb <= k <= n + 1,
            n == graph@.len(),
            n * n <= usize::MAX,
            graph.wf(),
            p.wf(),
            p.budget_fits(n as nat),
            n < usize::MAX,
            is_degree_prefix(graph@, pref@),
            best_sol.wf(),
            best_sol.host() == *graph,
            best_sol@.size >= 2,
            best_sol@.feasible(p.gamma_target) || best_sol@.size == 2,
            has_edge(graph@) ==> best_sol@.feasible(p.gamma_target),
        decreases n + 1 - k,
    {
        if k != best_sol.size() {
            proof {
                assert(k * k <= n * n) by (nonlinear_arith)
                    requires 0 <= k <= n;
                lemma_max_tenure_monotone(k as nat, n as nat);
            }
            let required = edges_needed(p.gamma_target, k);
            if ub_edges(pref.as_slice(), k) < required {
                if k > best_sol.size() {
                    break ;
                }
            } else {
                let sol_k = solve_fixed_k(graph, k, rng, p);
                if sol_k.is_gamma_feasible(p.gamma_target) {
                    proof {
                        if sol_k@.size == 0 {
                            assert(0 * p.gamma_target.den == 0) by (nonlinear_arith);
                            assert(p.gamma_target.num * 1 > 0) by (nonlinear_arith)
                                requires p.gamma_target.num > 0;
                        }
                    }
                    best_sol = sol_k;
                } else if k > best_sol.size() {
                    break ;
                }
            }
        }
        k += 1;
    }
    best_sol
}

} // verus!
