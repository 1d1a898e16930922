//! Multi-start tabu search for a fixed subset size `k`.
//!
//! Each run starts from a fresh subset, intensifies by swap steps, diversifies
//! by a perturbation whenever the density has not improved for a while, and
//! ends when one swap can no longer reach the target. The best subset over all
//! runs is returned, or the first subset found that reaches the target density.

use crate::construct::{
    fill_greedily, greedy_random_k, grown, is_greedy_growth, is_greedy_order,
};
use crate::critical::{degree_extremes, inner_degrees, max_out, min_in};
use crate::diversify::{heavy_perturbation, mild_perturbation};
use crate::bits::popcount;
use crate::graph::{edges_within, Graph};
use crate::memory::{is_least_used, least_used, zeros};
use crate::neighbour::improve_once;
use crate::params::Params;
use crate::ratio::{lemma_product_fits, Ratio};
use crate::rng::{lemma_permutation, permute, rand_below};
use crate::solution::{
    clique_edges, clique_size, edges_needed, lemma_density_fits, lemma_subset_bounds,
    required_edges, Solution, Subset,
};
use crate::tabu::{max_tenure, DualTabu};
use rand_chacha::ChaCha8Rng;
use vstd::prelude::*;

verus! {

/// The tight one-swap upper bound on the edge count: m(S) + max(MaxOutS - MinInS, 0).
pub open spec fn one_swap_bound(adj: Seq<Seq<bool>>, sub: Subset) -> int {
    let gain = max_out(adj, sub.members) - min_in(adj, sub.members);
    sub.edges + if gain > 0 { gain } else { 0 }
}

/// Whether one swap could still bring the edge count to `needed`.
pub fn reaches_in_one_swap(sol: &Solution, needed: usize) -> (r: bool)
    requires
        sol.wf(),
    ensures
        r == (one_swap_bound(sol.host()@, sol@) >= needed),
{
    let degs = inner_degrees(sol);
    let (lo_in, hi_out, _) = degree_extremes(sol, &degs);
    let m = sol.edges();
    if m >= needed {
        true
    } else if hi_out > lo_in {
        hi_out - lo_in >= needed - m
    } else {
        false
    }
}

/// The heavy perturbation is taken when the number `y * k + r`, uniform below
/// `room * k`, falls below `deficit * k + 2 * room`: with probability
/// `deficit / room + 2 / k`, capped at one.
pub open spec fn adaptive_heavy(k: nat, deficit: nat, room: nat, y: nat, r: nat) -> bool {
    y * k + r < deficit * k + 2 * room
}

/// Decides between heavy and mild from two draws, `y` below `room` and `r`
/// below `k`.
pub fn heavy_by_draws(k: usize, deficit: usize, room: usize, y: usize, r: usize) -> (heavy: bool)
    ensures
        heavy == adaptive_heavy(k as nat, deficit as nat, room as nat, y as nat, r as nat),
{
    proof {
        lemma_product_fits(y, k);
        lemma_product_fits(deficit, k);
    }
    (y as u128) * (k as u128) + (r as u128) < (deficit as u128) * (k as u128) + 2 * (room as u128)
}

/// Draws the kind of perturbation: `true` for heavy. With a fixed probability
/// `num / den` a number drawn below `den` is compared with `num`. Without one
/// the probability is `deficit / (max_edges - m) + 2 / k`, capped at one,
/// where `deficit` is what `m` lacks of `needed`.
pub fn draw_heavy(
    p: &Params,
    k: usize,
    m: usize,
    needed: usize,
    max_edges: usize,
    rng: &mut ChaCha8Rng,
) -> (heavy: bool)
    requires
        p.wf(),
        k >= 1,
        needed <= max_edges,
    ensures
        p.heavy_prob matches Some(h) ==> (h.num == h.den ==> heavy) && (h.num == 0 ==> !heavy),
        p.heavy_prob is None && k <= 2 ==> heavy,
{
    match p.heavy_prob {
        Some(h) => {
            let x = rand_below(rng, h.den);
            x < h.num
        },
        None => {
            if m < needed {
                let room = max_edges - m;
                let y = rand_below(rng, room);
                let r = rand_below(rng, k);
                let heavy = heavy_by_draws(k, needed - m, room, y, r);
                proof {
                    if k <= 2 {
                        assert(y * k + r < 2 * room) by (nonlinear_arith)
                            requires y < room, r < k, 1 <= k <= 2;
                        assert((needed - m) * k >= 0) by (nonlinear_arith)
                            requires needed - m >= 0, k >= 1;
                    }
                }
                heavy
            } else {
                let r = rand_below(rng, k);
                r < 2
            }
        },
    }
}

/// The start of a later run: one of the least-used vertices, chosen at
/// random, grown greedily to `k` vertices.
pub fn restart_from_memory<'g>(
    graph: &'g Graph,
    k: usize,
    freq: &Vec<usize>,
    rng: &mut ChaCha8Rng,
) -> (sol: Solution<'g>)
    requires
        graph.wf(),
        1 <= k <= graph@.len(),
        freq@.len() == graph@.len(),
    ensures
        sol.wf(),
        sol.host() == *graph,
        sol@.size == k,
        exists|seed: int, order: Seq<usize>|
            is_least_used(freq@, seed)
                && #[trigger] is_greedy_growth(graph@, seed, order, sol@.members),
{
    let mut pool = least_used(freq);
    let ghost sorted = pool@;
    permute(&mut pool, rng);
    proof {
        lemma_permutation(sorted, pool@);
        assert(pool@.contains(pool@[0]));
        assert(sorted.contains(pool@[0]));
        let i = choose|i: int| 0 <= i < sorted.len() && sorted[i] == pool@[0];
        assert(is_least_used(freq@, sorted[i] as int));
    }
    let seed = pool[0];
    let mut sol = Solution::new(graph);
    sol.add(seed);
    let ghost start = sol@.members;
    fill_greedily(&mut sol, k, rng);
    proof {
        let order = choose|order: Seq<usize>|
            {
                &&& #[trigger] is_greedy_order(graph@, start, order)
                &&& 1 + order.len() == sol@.size
                &&& sol@.members == grown(start, order, order.len() as int)
            };
        assert(is_greedy_growth(graph@, seed as int, order, sol@.members));
    }
    sol
}

/// Some `k` vertices of the graph span no edge.
pub open spec fn has_edgeless_subset(adj: Seq<Seq<bool>>, k: nat) -> bool {
    exists|s: Seq<bool>| #[trigger] is_edgeless_subset(adj, k, s)
}

/// `s` holds `k` vertices of the graph, which span no edge.
pub open spec fn is_edgeless_subset(adj: Seq<Seq<bool>>, k: nat, s: Seq<bool>) -> bool {
    s.len() == adj.len() && popcount(s) == k && edges_within(adj, s) == 0
}

/// A density above zero, or at least a positive threshold, means an edge.
pub proof fn lemma_positive_density(sub: Subset, gamma: Ratio)
    requires
        sub.density().gt_spec(Ratio { num: 0, den: 1 }) || (gamma.in_unit() && sub.feasible(gamma)),
        2 * sub.edges <= usize::MAX,
        sub.size * sub.size <= usize::MAX,
    ensures
        sub.size >= 2,
        sub.edges >= 1,
{
    let d = sub.density();
    if sub.size >= 2 {
        assert(sub.size * (sub.size - 1) >= 1
            && sub.size * (sub.size - 1) <= sub.size * sub.size) by (nonlinear_arith)
            requires sub.size >= 2;
    }
    if gamma.in_unit() && sub.feasible(gamma) {
        assert(gamma.num * d.den > 0) by (nonlinear_arith)
            requires gamma.num > 0, d.den > 0;
        if d.num == 0 {
            assert(d.num * gamma.den == 0) by (nonlinear_arith)
                requires d.num == 0;
        }
    }
}

/// Searches for a subset of `k` vertices of density at least the target.
///
/// Returns a subset that reaches the target as soon as a run holds one.
/// Otherwise, when the step budget is spent, returns the densest subset any
/// run has held, or the empty solution if no run has held an edge.
pub fn solve_fixed_k<'g>(
    graph: &'g Graph,
    k: usize,
    rng: &mut ChaCha8Rng,
    p: &Params,
) -> (best: Solution<'g>)
    requires
        graph.wf(),
        1 <= k <= graph@.len(),
        p.wf(),
        p.budget_fits(k as nat),
    ensures
        best.wf(),
        best.host() == *graph,
        best@.size == 0 || (best@.size == k && best@.edges >= 1),
        p.max_iter == 0 ==> best@.size == 0,
        p.max_iter >= 1 && best@.size == 0 ==> has_edgeless_subset(graph@, k as nat),
{
    let n = graph.n();
    proof {
        assert(k * k <= n * n) by (nonlinear_arith)
            requires 0 <= k <= n;
    }
    let needed = edges_needed(p.gamma_target, k);
    let max_edges = clique_size(k);
    if max_edges < needed {
        return Solution::new(graph);
    }
    let mut freq = zeros(n);
    let mut best_global = Solution::new(graph);
    let mut best_global_rho = Ratio { num: 0, den: 1 };
    let mut total_moves: usize = 0;
    let mut first = true;
    while total_moves < p.max_iter
        invariant
            graph.wf(),
            n == graph@.len(),
            1 <= k <= n,
            k * k <= usize::MAX,
            p.wf(),
            p.budget_fits(k as nat),
            needed == required_edges(p.gamma_target, k as nat),
            max_edges == clique_edges(k as nat),
            needed <= max_edges,
            freq@.len() == n,
            best_global.wf(),
            best_global.host() == *graph,
            best_global@.size == 0 || (best_global@.size == k && best_global@.edges >= 1),
            best_global_rho.wf(),
            total_moves <= p.max_iter,
            total_moves == 0 ==> best_global@.size == 0,
            best_global@.size == 0 ==> best_global_rho == (Ratio { num: 0, den: 1 }),
            total_moves >= 1 && best_global@.size == 0 ==> has_edgeless_subset(graph@, k as nat),
        decreases p.max_iter - total_moves,
    {
        let mut cur = if first {
            greedy_random_k(graph, k, rng)
        } else {
            restart_from_memory(graph, k, &freq, rng)
        };
        first = false;
        let mut tabu = DualTabu::new(n, p.tenure_u, p.tenure_v);
        proof {
            lemma_density_fits(graph@, cur@);
        }
        tabu.update_tenures(cur.size(), cur.edges(), p.gamma_target, rng);
        let mut best_run = cur.clone();
        let mut rho_run = cur.density();
        let mut stagnation: usize = 0;
        let ghost start = total_moves;
        loop
            invariant_except_break
                total_moves < p.max_iter,
            invariant
                graph.wf(),
                n == graph@.len(),
                1 <= k <= n,
                k * k <= usize::MAX,
                p.wf(),
                p.budget_fits(k as nat),
                needed == required_edges(p.gamma_target, k as nat),
                max_edges == clique_edges(k as nat),
                needed <= max_edges,
                freq@.len() == n,
                best_global_rho.wf(),
                cur.wf(),
                cur.host() == *graph,
                cur@.size == k,
                best_run.wf(),
                best_run.host() == *graph,
                best_run@.size == k,
                rho_run == best_run@.density(),
                tabu@.wf(),
                tabu@.expiry_u.len() == n,
                tabu@.iter <= total_moves,
                tabu@.tu <= max_tenure(k as nat),
                tabu@.tv <= max_tenure(k as nat),
                stagnation <= total_moves,
                start <= total_moves <= p.max_iter,
            ensures
                total_moves > start,
            decreases p.max_iter - total_moves,
        {
            let _moved = improve_once(&mut cur, &mut tabu, best_global_rho, &mut freq, p, rng);
            total_moves += 1;
            let rho = cur.density();
            if rho.gt(&rho_run) {
                rho_run = rho;
                best_run = cur.clone();
                stagnation = 0;
            } else {
                stagnation += 1;
            }
            if rho_run.ge(&p.gamma_target) {
                proof {
                    lemma_density_fits(graph@, best_run@);
                    lemma_positive_density(best_run@, p.gamma_target);
                }
                return best_run;
            }
            if !reaches_in_one_swap(&cur, needed) {
                break ;
            }
            if stagnation >= p.stagnation_iter {
                if draw_heavy(p, k, cur.edges(), needed, max_edges, rng) {
                    heavy_perturbation(&mut cur, &mut tabu, rng, p, &mut freq);
                } else {
                    mild_perturbation(&mut cur, &mut tabu, rng, p, &mut freq);
                }
                stagnation = 0;
            }
            if total_moves >= p.max_iter {
                break ;
            }
        }
        if rho_run.gt(&best_global_rho) {
            proof {
                lemma_density_fits(graph@, best_run@);
                assert(rho_run.num * 1 > 0) by (nonlinear_arith)
                    requires rho_run.num * best_global_rho.den > best_global_rho.num * rho_run.den, best_global_rho.den > 0, rho_run.den > 0, best_global_rho.num >= 0;
                lemma_positive_density(best_run@, p.gamma_target);
            }
            best_global_rho = rho_run;
            best_global = best_run;
        } else {
            proof {
                if best_global@.size == 0 {
                    lemma_subset_bounds(graph@, best_run@);
                    lemma_density_fits(graph@, best_run@);
                    assert(rho_run.num == 0);
                    assert(is_edgeless_subset(graph@, k as nat, best_run@.members));
                }
            }
        }
    }
    best_global
}

} // verus!
