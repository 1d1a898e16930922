//! Intensification: one step of the swap neighbourhood.
//!
//! A step looks at every pair of a critical member `u` (least internal
//! degree) and an outsider `v`, picks the best swap the tabu memories allow,
//! or else the best forbidden swap that would beat the best density seen so
//! far, carries it out, and advances the tabu clock.

use crate::bits::{bit_at, lemma_count_both_update};
use crate::critical::{degree_extremes, inner_degrees, is_critical_in, min_in, tabulates};
use crate::graph::{inner_degree, is_simple};
use crate::memory::{record_move, recorded};
use crate::params::Params;
use crate::ratio::Ratio;
use crate::solution::{
    density_of, lemma_add_consistent, lemma_density_fits, lemma_remove_consistent, Solution,
    Subset,
};
use crate::tabu::{max_tenure, retuned, DualTabu, TabuState};
use rand_chacha::ChaCha8Rng;
use vstd::prelude::*;

verus! {

/// Δm of the swap `u` out, `v` in: |N(v) ∩ S \ {u}| - |N(u) ∩ S|.
pub open spec fn swap_gain(adj: Seq<Seq<bool>>, s: Seq<bool>, u: int, v: int) -> int {
    inner_degree(adj, s, v) - (if adj[u][v] { 1int } else { 0int }) - inner_degree(adj, s, u)
}

/// `u` is a critical member and `v` an outsider.
pub open spec fn is_candidate(adj: Seq<Seq<bool>>, s: Seq<bool>, u: int, v: int) -> bool {
    is_critical_in(adj, s, u) && 0 <= v < s.len() && !s[v]
}

/// The swap is forbidden: `u` was added recently, or `v` was removed recently.
pub open spec fn is_forbidden(t: TabuState, u: int, v: int) -> bool {
    t.is_tabu_v(u) || t.is_tabu_u(v)
}

/// A candidate that is not forbidden and does not lose edges.
pub open spec fn is_allowed(
    adj: Seq<Seq<bool>>,
    s: Seq<bool>,
    t: TabuState,
    u: int,
    v: int,
) -> bool {
    is_candidate(adj, s, u, v) && !is_forbidden(t, u, v) && swap_gain(adj, s, u, v) >= 0
}

/// A forbidden candidate whose density after the swap exceeds `best`.
pub open spec fn is_aspiring(
    adj: Seq<Seq<bool>>,
    sub: Subset,
    t: TabuState,
    best: Ratio,
    u: int,
    v: int,
) -> bool {
    is_candidate(adj, sub.members, u, v) && is_forbidden(t, u, v) && density_of(
        sub.size,
        (sub.edges + swap_gain(adj, sub.members, u, v)) as nat,
    ).gt_spec(best)
}

/// `(x, y)` comes no later than `(u, v)` in the scan, which goes through `u`
/// ascending and, for each `u`, through `v` ascending.
pub open spec fn scanned_by(x: int, y: int, u: int, v: int) -> bool {
    x < u || (x == u && y <= v)
}

/// Among the allowed swaps, `(u, v)` has the greatest gain, and is the last
/// of those in the scan.
pub open spec fn best_allowed(
    adj: Seq<Seq<bool>>,
    s: Seq<bool>,
    t: TabuState,
    u: int,
    v: int,
) -> bool {
    &&& is_allowed(adj, s, t, u, v)
    &&& forall|x: int, y: int| #[trigger]
        is_allowed(adj, s, t, x, y) ==> swap_gain(adj, s, x, y) < swap_gain(adj, s, u, v) || (
        swap_gain(adj, s, x, y) == swap_gain(adj, s, u, v) && scanned_by(x, y, u, v))
}

/// Among the aspiring swaps, `(u, v)` has the greatest gain, and is the first
/// of those in the scan.
pub open spec fn best_aspiring(
    adj: Seq<Seq<bool>>,
    sub: Subset,
    t: TabuState,
    best: Ratio,
    u: int,
    v: int,
) -> bool {
    &&& is_aspiring(adj, sub, t, best, u, v)
    &&& forall|x: int, y: int| #[trigger]
        is_aspiring(adj, sub, t, best, x, y) ==> swap_gain(adj, sub.members, x, y) < swap_gain(
            adj,
            sub.members,
            u,
            v,
        ) || (swap_gain(adj, sub.members, x, y) == swap_gain(adj, sub.members, u, v) && scanned_by(
            u,
            v,
            x,
            y,
        ))
}

/// No swap is allowed.
pub open spec fn none_allowed(adj: Seq<Seq<bool>>, s: Seq<bool>, t: TabuState) -> bool {
    forall|x: int, y: int| !#[trigger] is_allowed(adj, s, t, x, y)
}

/// No swap is aspiring.
pub open spec fn none_aspiring(
    adj: Seq<Seq<bool>>,
    sub: Subset,
    t: TabuState,
    best: Ratio,
) -> bool {
    forall|x: int, y: int| !#[trigger] is_aspiring(adj, sub, t, best, x, y)
}

/// The move rule: the best allowed swap; without an allowed one, the best
/// aspiring swap; without either, no move. The density after a swap grows with
/// its gain, so the greatest gain is the greatest density.
pub open spec fn is_selected(
    adj: Seq<Seq<bool>>,
    sub: Subset,
    t: TabuState,
    best: Ratio,
    choice: Option<(usize, usize)>,
) -> bool {
    match choice {
        Some((u, v)) => best_allowed(adj, sub.members, t, u as int, v as int) || (none_allowed(
            adj,
            sub.members,
            t,
        ) && best_aspiring(adj, sub, t, best, u as int, v as int)),
        None => none_allowed(adj, sub.members, t) && none_aspiring(adj, sub, t, best),
    }
}

/// The move rule leaves no choice: two moves that both satisfy it are the same.
pub proof fn lemma_selection_unique(
    adj: Seq<Seq<bool>>,
    sub: Subset,
    t: TabuState,
    best: Ratio,
    first: Option<(usize, usize)>,
    second: Option<(usize, usize)>,
)
    requires
        is_selected(adj, sub, t, best, first),
        is_selected(adj, sub, t, best, second),
    ensures
        first == second,
{
    let s = sub.members;
    match (first, second) {
        (Some((u1, v1)), Some((u2, v2))) => {
            if best_allowed(adj, s, t, u1 as int, v1 as int) {
                assert(is_allowed(adj, s, t, u1 as int, v1 as int));
                assert(best_allowed(adj, s, t, u2 as int, v2 as int));
                assert(is_allowed(adj, s, t, u2 as int, v2 as int));
            } else {
                assert(is_aspiring(adj, sub, t, best, u1 as int, v1 as int));
                if best_allowed(adj, s, t, u2 as int, v2 as int) {
                    assert(is_allowed(adj, s, t, u2 as int, v2 as int));
                }
                assert(is_aspiring(adj, sub, t, best, u2 as int, v2 as int));
            }
        },
        (Some((u1, v1)), None) => {
            if best_allowed(adj, s, t, u1 as int, v1 as int) {
                assert(is_allowed(adj, s, t, u1 as int, v1 as int));
            } else {
                assert(is_aspiring(adj, sub, t, best, u1 as int, v1 as int));
            }
        },
        (None, Some((u2, v2))) => {
            if best_allowed(adj, s, t, u2 as int, v2 as int) {
                assert(is_allowed(adj, s, t, u2 as int, v2 as int));
            } else {
                assert(is_aspiring(adj, sub, t, best, u2 as int, v2 as int));
            }
        },
        (None, None) => {},
    }
}

/// The subset after the chosen move.
pub open spec fn after_choice(
    adj: Seq<Seq<bool>>,
    sub: Subset,
    choice: Option<(usize, usize)>,
) -> Subset {
    match choice {
        Some((u, v)) => sub.swap(adj, u as int, v as int),
        None => sub,
    }
}

/// The tabu memories after the chosen move: `u` may not be removed and `v`
/// may not be re-added for a while.
pub open spec fn after_marks(t: TabuState, choice: Option<(usize, usize)>) -> TabuState {
    match choice {
        Some((u, v)) => t.forbid_v(u as int).forbid_u(v as int),
        None => t,
    }
}

/// The chosen move is one that the tabu memories forbid.
pub open spec fn overrides_tabu(t: TabuState, choice: Option<(usize, usize)>) -> bool {
    match choice {
        Some((u, v)) => is_forbidden(t, u as int, v as int),
        None => false,
    }
}

/// The frequency memory after the chosen move.
pub open spec fn after_count(
    freq: Seq<usize>,
    choice: Option<(usize, usize)>,
    k: nat,
) -> Seq<usize> {
    match choice {
        Some((u, v)) => recorded(freq, u as int, v as int, k),
        None => freq,
    }
}

/// Swapping a member `u` for an outsider `v` keeps the size, changes the edge
/// count by the gain of the swap, and keeps the counts consistent.
pub proof fn lemma_swap(adj: Seq<Seq<bool>>, sub: Subset, u: int, v: int)
    requires
        is_simple(adj),
        sub.consistent(adj),
        0 <= u < adj.len(),
        0 <= v < adj.len(),
        sub.members[u],
        !sub.members[v],
    ensures
        sub.swap(adj, u, v).consistent(adj),
        sub.swap(adj, u, v).size == sub.size,
        sub.swap(adj, u, v).edges == sub.edges + swap_gain(adj, sub.members, u, v),
        sub.swap(adj, u, v).members == sub.members.update(u, false).update(v, true),
        sub.edges >= inner_degree(adj, sub.members, u),
        inner_degree(adj, sub.members, v) >= (if adj[u][v] { 1int } else { 0int }),
{
    lemma_remove_consistent(adj, sub, u);
    lemma_add_consistent(adj, sub.remove(adj, u), v);
    lemma_count_both_update(adj[v], sub.members, u, false, adj.len() as int);
    assert(adj[v][u] == adj[u][v]);
}

/// Picks the swap of one step by the move rule.
pub fn select_swap(
    sol: &Solution,
    tabu: &DualTabu,
    best_global_rho: Ratio,
) -> (r: Option<(usize, usize)>)
    requires
        sol.wf(),
        tabu@.expiry_u.len() == sol@.members.len(),
        tabu@.expiry_v.len() == sol@.members.len(),
    ensures
        is_selected(sol.host()@, sol@, tabu@, best_global_rho, r),
        r matches Some((u, v)) ==> u < sol@.members.len() && v < sol@.members.len()
            && sol@.members[u as int] && !sol@.members[v as int],
{
    let graph = sol.graph();
    let n = graph.n();
    let set = sol.bitset();
    let k = sol.size();
    let m = sol.edges();
    let degs = inner_degrees(sol);
    let (lo_in, _, _) = degree_extremes(sol, &degs);
    let ghost adj = sol.host()@;
    let ghost sub = sol@;
    let ghost s = sol@.members;
    let ghost t = tabu@;
    let ghost best = best_global_rho;
    let mut top_allowed: Option<(usize, usize, usize)> = None;
    let mut top_aspire: Option<(usize, usize, usize)> = None;
    let mut u: usize = 0;
    while u < n
        invariant
            u <= n,
            n == s.len(),
            sol.wf(),
            adj == sol.host()@,
            sub == sol@,
            s == sub.members,
            t == tabu@,
            best == best_global_rho,
            graph@ == adj,
            set@ == s,
            k == sub.size,
            m == sub.edges,
            t.expiry_u.len() == n,
            t.expiry_v.len() == n,
            tabulates(adj, s, degs@),
            lo_in == min_in(adj, s),
            scan_state(adj, sub, t, best, top_allowed, top_aspire, u as int, 0),
        decreases n - u,
    {
        if bit_at(set, u) && degs[u] == lo_in {
            let loss = degs[u];
            let u_banned = tabu.is_tabu_v(u);
            let row = graph.neigh_row(u);
            let mut v: usize = 0;
            while v < n
                invariant
                    v <= n,
                    u < n,
                    n == s.len(),
                    sol.wf(),
                    adj == sol.host()@,
                    sub == sol@,
                    s == sub.members,
                    t == tabu@,
                    best == best_global_rho,
                    set@ == s,
                    row@ == adj[u as int],
                    k == sub.size,
                    m == sub.edges,
                    t.expiry_u.len() == n,
                    t.expiry_v.len() == n,
                    tabulates(adj, s, degs@),
                    is_critical_in(adj, s, u as int),
                    loss == inner_degree(adj, s, u as int),
                    u_banned == t.is_tabu_v(u as int),
                    scan_state(adj, sub, t, best, top_allowed, top_aspire, u as int, v as int),
                decreases n - v,
            {
                if !bit_at(set, v) {
                    proof {
                        lemma_swap(adj, sub, u as int, v as int);
                        lemma_density_fits(adj, sub.swap(adj, u as int, v as int));
                        lemma_density_fits(adj, sub);
                    }
                    let e: usize = if bit_at(row, v) { 1 } else { 0 };
                    let m_new: usize = (m - loss) + (degs[v] - e);
                    assert(m_new == m + swap_gain(adj, s, u as int, v as int));
                    let forbidden = u_banned || tabu.is_tabu_u(v);
                    if !forbidden {
                        if m_new >= m {
                            let better = match top_allowed {
                                Some((top, _, _)) => m_new >= top,
                                None => true,
                            };
                            if better {
                                top_allowed = Some((m_new, u, v));
                            }
                        }
                    } else {
                        let rho = if k < 2 {
                            Ratio { num: 0, den: 1 }
                        } else {
                            Ratio { num: 2 * m_new, den: k * (k - 1) }
                        };
                        assert(rho == density_of(sub.size, m_new as nat));
                        if rho.gt(&best_global_rho) {
                            let better = match top_aspire {
                                Some((top, _, _)) => m_new > top,
                                None => true,
                            };
                            if better {
                                top_aspire = Some((m_new, u, v));
                            }
                        }
                    }
                }
                v += 1;
            }
        }
        u += 1;
    }
    match top_allowed {
        Some((_, bu, bv)) => Some((bu, bv)),
        None => match top_aspire {
            Some((_, bu, bv)) => Some((bu, bv)),
            None => None,
        },
    }
}

/// One step of the swap neighbourhood. Picks a swap by the move rule and, if
/// there is one, carries it out: `u` leaves, `v` enters, both are marked in
/// the tabu memories and counted in the frequency memory. Moved or not, the
/// tabu clock advances by one and the tenures are recomputed.
/// Returns whether a swap was carried out.
pub fn improve_once<'g>(
    sol: &mut Solution<'g>,
    tabu: &mut DualTabu,
    best_global_rho: Ratio,
    freq: &mut Vec<usize>,
    p: &Params,
    rng: &mut ChaCha8Rng,
) -> (moved: bool)
    requires
        old(sol).wf(),
        old(tabu)@.wf(),
        old(tabu)@.expiry_u.len() == old(sol)@.members.len(),
        old(freq)@.len() == old(sol)@.members.len(),
        p.wf(),
        old(tabu)@.iter + old(tabu)@.tu <= usize::MAX,
        old(tabu)@.iter + old(tabu)@.tv <= usize::MAX,
        old(tabu)@.iter < usize::MAX,
    ensures
        final(sol).wf(),
        final(sol).host() == old(sol).host(),
        final(sol)@.size == old(sol)@.size,
        final(freq)@.len() == old(freq)@.len(),
        final(tabu)@.wf(),
        final(tabu)@.expiry_u.len() == old(tabu)@.expiry_u.len(),
        final(tabu)@.iter == old(tabu)@.iter + 1,
        final(tabu)@.tu <= max_tenure(old(sol)@.size),
        final(tabu)@.tv <= max_tenure(old(sol)@.size),
        exists|choice: Option<(usize, usize)>|
            {
                &&& #[trigger] is_selected(old(sol).host()@, old(sol)@, old(tabu)@, best_global_rho, choice)
                &&& moved == choice.is_some()
                &&& final(sol)@ == after_choice(old(sol).host()@, old(sol)@, choice)
                &&& final(freq)@ == after_count(old(freq)@, choice, old(sol)@.size)
                &&& retuned(
                    after_marks(old(tabu)@, choice).step(),
                    final(tabu)@,
                    final(sol)@.size,
                    final(sol)@.edges,
                    p.gamma_target,
                )
                &&& overrides_tabu(old(tabu)@, choice) ==> final(sol)@.density().gt_spec(
                    best_global_rho,
                )
            },
{
    let choice = select_swap(sol, tabu, best_global_rho);
    let k = sol.size();
    let ghost adj = sol.host()@;
    let ghost before = sol@;
    let moved = match choice {
        Some((u, v)) => {
            proof {
                lemma_swap(adj, before, u as int, v as int);
            }
            sol.remove(u);
            sol.add(v);
            tabu.forbid_v(u);
            tabu.forbid_u(v);
            record_move(freq, u, v, k);
            true
        },
        None => false,
    };
    tabu.step();
    proof {
        lemma_density_fits(adj, sol@);
    }
    tabu.update_tenures(sol.size(), sol.edges(), p.gamma_target, rng);
    proof {
        assert(is_selected(adj, before, old(tabu)@, best_global_rho, choice));
    }
    moved
}

/// `(x, y)` was looked at before the scan reached `(u, v)`.
pub open spec fn seen(x: int, y: int, u: int, v: int) -> bool {
    x < u || (x == u && y < v)
}

/// What the scan knows when it stands before `(u, v)`: each of its two
/// records is the best of its kind among the pairs seen.
pub open spec fn scan_state(
    adj: Seq<Seq<bool>>,
    sub: Subset,
    t: TabuState,
    best: Ratio,
    top_allowed: Option<(usize, usize, usize)>,
    top_aspire: Option<(usize, usize, usize)>,
    u: int,
    v: int,
) -> bool {
    let s = sub.members;
    &&& match top_allowed {
        Some((top, bu, bv)) => {
            &&& is_allowed(adj, s, t, bu as int, bv as int)
            &&& seen(bu as int, bv as int, u, v)
            &&& top == sub.edges + swap_gain(adj, s, bu as int, bv as int)
            &&& forall|x: int, y: int|
                seen(x, y, u, v) && #[trigger] is_allowed(adj, s, t, x, y)
                    ==> swap_gain(adj, s, x, y)
                    < swap_gain(adj, s, bu as int, bv as int) || (swap_gain(adj, s, x, y)
                    == swap_gain(adj, s, bu as int, bv as int) && scanned_by(
                    x,
                    y,
                    bu as int,
                    bv as int,
                ))
        },
        None => forall|x: int, y: int| seen(x, y, u, v) ==> !#[trigger] is_allowed(adj, s, t, x, y),
    }
    &&& match top_aspire {
        Some((top, bu, bv)) => {
            &&& is_aspiring(adj, sub, t, best, bu as int, bv as int)
            &&& seen(bu as int, bv as int, u, v)
            &&& top == sub.edges + swap_gain(adj, s, bu as int, bv as int)
            &&& forall|x: int, y: int|
                seen(x, y, u, v) && #[trigger] is_aspiring(adj, sub, t, best, x, y) ==> swap_gain(
                    adj,
                    s,
                    x,
                    y,
                ) < swap_gain(adj, s, bu as int, bv as int) || (swap_gain(adj, s, x, y)
                    == swap_gain(
                    adj,
                    s,
                    bu as int,
                    bv as int,
                ) && scanned_by(bu as int, bv as int, x, y))
        },
        None => forall|x: int, y: int|
            seen(x, y, u, v) ==> !#[trigger] is_aspiring(adj, sub, t, best, x, y),
    }
}

} // verus!
