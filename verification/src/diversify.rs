//! Diversification: the heavy and the mild perturbation.
//!
//! Both swap one member for one outsider, so |S| stays. Afterwards the move
//! is counted in the frequency memory, the tabu marks are cleared and the
//! tenures are recomputed.

use crate::bits::{lemma_count_true_positive, lemma_outsider_exists};
use crate::critical::{
    critical_in, critical_out, degree_extremes, inner_degrees, is_critical_in, is_critical_out,
    lemma_max_out, lemma_min_in, lemma_min_out, max_out, min_in, min_out, select_vertices, selects,
};
use crate::graph::{all_set, edge_total, inner_degree, lemma_pairs_below_bound, Graph};
use crate::memory::{record_move, recorded};
use crate::neighbour::lemma_swap;
use crate::params::Params;
use crate::rng::pick;
use crate::roots::{ceil_root, ceil_root_of};
use crate::solution::{
    lemma_density_fits, lemma_remove_consistent, lemma_subset_bounds, Solution, Subset,
};
use crate::tabu::{max_tenure, retuned, DualTabu};
use rand_chacha::ChaCha8Rng;
use vstd::prelude::*;

verus! {

/// The graph has at least half of all possible edges: 2 m / (n (n - 1)) >= 1/2.
pub open spec fn is_dense(adj: Seq<Seq<bool>>) -> bool {
    4 * edge_total(adj) >= adj.len() * (adj.len() - 1)
}

/// `raw` clamped to `[1, k - 1]`, and 1 where that interval is empty.
pub open spec fn clamp_threshold(raw: nat, k: nat) -> nat {
    let top: nat = if k >= 2 { (k - 1) as nat } else { 1 };
    if raw < 1 {
        1
    } else if raw > top {
        top
    } else {
        raw
    }
}

/// The threshold `h` of the heavy perturbation for a subset of `k` vertices:
/// `ceil(k ^ 0.85)` on a dense graph, `ceil(sqrt(k))` on a sparse one, clamped.
pub open spec fn heavy_threshold_of(adj: Seq<Seq<bool>>, k: nat) -> nat {
    if is_dense(adj) {
        clamp_threshold(ceil_root_of(k, 17, 20), k)
    } else {
        clamp_threshold(ceil_root_of(k, 1, 2), k)
    }
}

/// An outsider with fewer than `h` neighbours in `s`.
pub open spec fn is_loose_outsider(adj: Seq<Seq<bool>>, s: Seq<bool>, h: nat, v: int) -> bool {
    selects(adj, s, false, 0, h - 1, v)
}

/// The pool from which the heavy perturbation draws the entering vertex: the
/// outsiders with fewer than `h` neighbours in `s`, or, if there is none, the
/// outsiders with the fewest.
pub open spec fn in_heavy_pool(adj: Seq<Seq<bool>>, s: Seq<bool>, h: nat, v: int) -> bool {
    if exists|w: int| #[trigger] is_loose_outsider(adj, s, h, w) {
        is_loose_outsider(adj, s, h, v)
    } else {
        selects(adj, s, false, min_out(adj, s), min_out(adj, s), v)
    }
}

/// A move the heavy perturbation can make: any member leaves, and a vertex of
/// the pool, taken after the removal, enters.
pub open spec fn is_heavy_move(adj: Seq<Seq<bool>>, sub: Subset, u: int, v: int) -> bool {
    &&& 0 <= u < sub.members.len()
    &&& sub.members[u]
    &&& in_heavy_pool(adj, sub.remove(adj, u).members, heavy_threshold_of(adj, sub.size), v)
}

/// A move the mild perturbation can make: a critical member leaves and a
/// critical outsider enters.
pub open spec fn is_mild_move(adj: Seq<Seq<bool>>, sub: Subset, u: int, v: int) -> bool {
    is_critical_in(adj, sub.members, u) && is_critical_out(adj, sub.members, v)
}

/// Whether the graph has at least half of all possible edges.
pub fn dense(graph: &Graph) -> (r: bool)
    requires
        graph.wf(),
    ensures
        r == is_dense(graph@),
{
    let n = graph.n();
    if n == 0 {
        assert(graph@.len() * (graph@.len() - 1) == 0) by (nonlinear_arith)
            requires graph@.len() == 0;
        return true;
    }
    let m = graph.m();
    proof {
        lemma_pairs_below_bound(graph@, all_set(n as nat), n as int);
        assert(n * (n - 1) <= n * n) by (nonlinear_arith)
            requires n >= 1;
    }
    (m as u128) * 4 >= (n as u128) * ((n - 1) as u128)
}

/// The threshold of the heavy perturbation for a subset of `k` vertices.
pub fn heavy_threshold(graph: &Graph, k: usize) -> (h: usize)
    requires
        graph.wf(),
    ensures
        h == heavy_threshold_of(graph@, k as nat),
        h >= 1,
{
    let raw = if dense(graph) { ceil_root(k, 17, 20) } else { ceil_root(k, 1, 2) };
    let top: usize = if k >= 2 { k - 1 } else { 1 };
    if raw < 1 {
        1
    } else if raw > top {
        top
    } else {
        raw
    }
}

/// The pool of the heavy perturbation, ascending.
pub fn heavy_pool(sol: &Solution, h: usize) -> (r: Vec<usize>)
    requires
        sol.wf(),
        h >= 1,
    ensures
        forall|k: int| 0 <= k < r@.len()
            ==> in_heavy_pool(sol.host()@, sol@.members, h as nat, #[trigger] r@[k] as int),
        forall|k: int, l: int| 0 <= k < l < r@.len() ==> r@[k] < r@[l],
        forall|v: int| #[trigger] in_heavy_pool(sol.host()@, sol@.members, h as nat, v)
            ==> r@.contains(v as usize),
        (exists|v: int| 0 <= v < sol@.members.len() && !sol@.members[v]) ==> r@.len() > 0,
{
    let ghost adj = sol.host()@;
    let ghost s = sol@.members;
    let degs = inner_degrees(sol);
    let low = select_vertices(sol, &degs, false, 0, h - 1);
    if low.len() > 0 {
        proof {
            assert(is_loose_outsider(adj, s, h as nat, low@[0] as int));
        }
        return low;
    }
    proof {
        if exists|w: int| #[trigger] is_loose_outsider(adj, s, h as nat, w) {
            let w = choose|w: int| #[trigger] is_loose_outsider(adj, s, h as nat, w);
            assert(selects(adj, s, false, 0, h - 1, w));
            assert(low@.contains(w as usize));
        }
    }
    let (_, _, lo_out) = degree_extremes(sol, &degs);
    let r = select_vertices(sol, &degs, false, lo_out, lo_out);
    proof {
        if exists|v: int| 0 <= v < s.len() && !s[v] {
            lemma_density_fits(adj, sol@);
            assert(adj.len() < usize::MAX) by (nonlinear_arith)
                requires adj.len() * adj.len() <= usize::MAX, adj.len() <= usize::MAX;
            lemma_min_out(adj, s, s.len() as int);
            let w = choose|v: int|
                0 <= v < s.len() && !s[v] && #[trigger] inner_degree(adj, s, v) == min_out(adj, s);
            assert(selects(adj, s, false, lo_out as int, lo_out as int, w));
            assert(r@.contains(w as usize));
        }
    }
    r
}

/// Heavy perturbation: a random member leaves, and a random vertex of the
/// heavy pool enters. An empty solution is left as it is.
pub fn heavy_perturbation<'g>(
    sol: &mut Solution<'g>,
    tabu: &mut DualTabu,
    rng: &mut ChaCha8Rng,
    p: &Params,
    freq: &mut Vec<usize>,
)
    requires
        old(sol).wf(),
        old(tabu)@.wf(),
        old(freq)@.len() == old(sol)@.members.len(),
        p.wf(),
    ensures
        final(sol).wf(),
        final(sol).host() == old(sol).host(),
        final(sol)@.size == old(sol)@.size,
        final(freq)@.len() == old(freq)@.len(),
        final(tabu)@.wf(),
        final(tabu)@.expiry_u.len() == old(tabu)@.expiry_u.len(),
        final(tabu)@.iter == old(tabu)@.iter,
        old(sol)@.size == 0
            ==> final(sol)@ == old(sol)@ && final(freq)@ == old(freq)@ && final(tabu)@
            == old(tabu)@,
        old(sol)@.size >= 1 ==> final(tabu)@.tu <= max_tenure(old(sol)@.size) && final(tabu)@.tv
            <= max_tenure(old(sol)@.size),
        old(sol)@.size >= 1 ==> exists|u: int, v: int|
            {
                &&& #[trigger] is_heavy_move(old(sol).host()@, old(sol)@, u, v)
                &&& final(sol)@ == old(sol)@.remove(old(sol).host()@, u).add(old(sol).host()@, v)
                &&& final(freq)@ == recorded(old(freq)@, u, v, old(sol)@.size)
                &&& retuned(
                    old(tabu)@.reset(),
                    final(tabu)@,
                    final(sol)@.size,
                    final(sol)@.edges,
                    p.gamma_target,
                )
            },
{
    let k = sol.size();
    if k < 1 {
        return ;
    }
    let ghost adj = sol.host()@;
    let ghost before = sol@;
    let members = sol.bitset().ones();
    proof {
        lemma_count_true_positive(before.members, before.members.len() as int);
        let w = choose|i: int| 0 <= i < before.members.len() && before.members[i];
        assert(members@.contains(w as usize));
    }
    let u = pick(&members, rng).unwrap();
    sol.remove(u);
    let h = heavy_threshold(sol.graph(), k);
    let pool = heavy_pool(sol, h);
    proof {
        assert(0 <= u < sol@.members.len() && !sol@.members[u as int]);
    }
    let v = pick(&pool, rng).unwrap();
    proof {
        lemma_remove_consistent(adj, before, u as int);
        assert(in_heavy_pool(adj, sol@.members, h as nat, v as int));
        lemma_density_fits(adj, before);
    }
    sol.add(v);
    record_move(freq, u, v, k);
    tabu.reset();
    proof {
        lemma_density_fits(adj, sol@);
    }
    tabu.update_tenures(sol.size(), sol.edges(), p.gamma_target, rng);
    proof {
        assert(is_heavy_move(adj, before, u as int, v as int));
    }
}

/// Mild perturbation: a random critical member leaves and a random critical
/// outsider enters. A solution without a member or without an outsider is
/// left as it is.
pub fn mild_perturbation<'g>(
    sol: &mut Solution<'g>,
    tabu: &mut DualTabu,
    rng: &mut ChaCha8Rng,
    p: &Params,
    freq: &mut Vec<usize>,
)
    requires
        old(sol).wf(),
        old(tabu)@.wf(),
        old(freq)@.len() == old(sol)@.members.len(),
        p.wf(),
    ensures
        final(sol).wf(),
        final(sol).host() == old(sol).host(),
        final(sol)@.size == old(sol)@.size,
        final(freq)@.len() == old(freq)@.len(),
        final(tabu)@.wf(),
        final(tabu)@.expiry_u.len() == old(tabu)@.expiry_u.len(),
        final(tabu)@.iter == old(tabu)@.iter,
        !can_swap(old(sol)@)
            ==> final(sol)@ == old(sol)@ && final(freq)@ == old(freq)@ && final(tabu)@
            == old(tabu)@,
        can_swap(old(sol)@) ==> final(tabu)@.tu <= max_tenure(old(sol)@.size) && final(tabu)@.tv
            <= max_tenure(old(sol)@.size),
        can_swap(old(sol)@) ==> exists|u: int, v: int|
            {
                &&& #[trigger] is_mild_move(old(sol).host()@, old(sol)@, u, v)
                &&& final(sol)@ == old(sol)@.swap(old(sol).host()@, u, v)
                &&& final(freq)@ == recorded(old(freq)@, u, v, old(sol)@.size)
                &&& retuned(
                    old(tabu)@.reset(),
                    final(tabu)@,
                    final(sol)@.size,
                    final(sol)@.edges,
                    p.gamma_target,
                )
            },
{
    let k = sol.size();
    let n = sol.graph().n();
    if k < 1 || k >= n {
        proof {
            lemma_subset_bounds(sol.host()@, sol@);
        }
        return ;
    }
    let ghost adj = sol.host()@;
    let ghost before = sol@;
    let ghost s = before.members;
    let a = critical_in(sol);
    let b = critical_out(sol);
    proof {
        lemma_density_fits(adj, before);
        assert(adj.len() < usize::MAX) by (nonlinear_arith)
            requires adj.len() * adj.len() <= usize::MAX, adj.len() <= usize::MAX;
        lemma_count_true_positive(s, n as int);
        lemma_min_in(adj, s, n as int);
        let x = choose|u: int|
            0 <= u < n && s[u] && #[trigger] inner_degree(adj, s, u) == min_in(adj, s);
        assert(is_critical_in(adj, s, x));
        assert(a@.contains(x as usize));
        lemma_outsider_exists(s);
        lemma_max_out(adj, s, n as int);
        let y = choose|v: int|
            0 <= v < n && !s[v] && #[trigger] inner_degree(adj, s, v) == max_out(adj, s);
        assert(is_critical_out(adj, s, y));
        assert(b@.contains(y as usize));
    }
    let u = pick(&a, rng).unwrap();
    let v = pick(&b, rng).unwrap();
    proof {
        lemma_swap(adj, before, u as int, v as int);
    }
    sol.remove(u);
    sol.add(v);
    record_move(freq, u, v, k);
    tabu.reset();
    proof {
        lemma_density_fits(adj, sol@);
    }
    tabu.update_tenures(sol.size(), sol.edges(), p.gamma_target, rng);
    proof {
        assert(is_mild_move(adj, before, u as int, v as int));
    }
}

/// The subset has a member to give up and an outsider to take in.
pub open spec fn can_swap(sub: Subset) -> bool {
    1 <= sub.size < sub.members.len()
}

} // verus!
