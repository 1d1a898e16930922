//! Why the degree bound of the max-k search is one: no `k` vertices span
//! more edges than `UB_edges(k)`.

use crate::bits::{
    count_both, count_true, lemma_count_both_bound, lemma_count_true_bound, popcount,
};
use crate::graph::{edges_within, is_simple, lemma_pairs_clique_bound, pairs_below};
use crate::construct::subset_of;
use crate::maxk::{capped_sum, degree_seq, descending, is_degree_prefix, steps, ub_edges_of};
use crate::ratio::Ratio;
use crate::solution::{lemma_density_fits, lemma_feasible_by_edges, required_edges};
use vstd::prelude::*;

verus! {

/// Sum over the members `v` below `i` of their neighbours in `s` below `k`.
pub open spec fn inner_sum(adj: Seq<Seq<bool>>, s: Seq<bool>, i: int, k: int) -> nat
    decreases i,
{
    if i <= 0 {
        0
    } else {
        inner_sum(adj, s, i - 1, k) + if s[i - 1] {
            count_both(adj[i - 1], s, k)
        } else {
            0nat
        }
    }
}

/// Number of members below `i` that are joined to `k`.
pub open spec fn joined_below(adj: Seq<Seq<bool>>, s: Seq<bool>, k: int, i: int) -> nat
    decreases i,
{
    if i <= 0 {
        0
    } else {
        joined_below(adj, s, k, i - 1) + if s[i - 1] && adj[i - 1][k] {
            1nat
        } else {
            0nat
        }
    }
}

/// By symmetry, the members joined to `k` are the neighbours of `k` among the members.
pub proof fn lemma_joined_below(adj: Seq<Seq<bool>>, s: Seq<bool>, k: int, i: int)
    requires
        is_simple(adj),
        s.len() == adj.len(),
        0 <= k < adj.len(),
        0 <= i <= adj.len(),
    ensures
        joined_below(adj, s, k, i) == count_both(adj[k], s, i),
    decreases i,
{
    if i > 0 {
        lemma_joined_below(adj, s, k, i - 1);
        assert(adj[i - 1][k] == adj[k][i - 1]);
    }
}

/// Looking one vertex further adds, for each member, that vertex if it is a
/// member and joined to it.
pub proof fn lemma_inner_sum_widen(adj: Seq<Seq<bool>>, s: Seq<bool>, i: int, k: int)
    requires
        0 <= i,
        0 <= k,
    ensures
        inner_sum(adj, s, i, k + 1) == inner_sum(adj, s, i, k) + if s[k] {
            joined_below(adj, s, k, i)
        } else {
            0nat
        },
    decreases i,
{
    if i > 0 {
        lemma_inner_sum_widen(adj, s, i - 1, k);
    }
}

/// Among the vertices below `k`, the internal degrees of the members add up
/// to twice the number of edges between them.
pub proof fn lemma_handshake_below(adj: Seq<Seq<bool>>, s: Seq<bool>, k: int)
    requires
        is_simple(adj),
        s.len() == adj.len(),
        0 <= k <= adj.len(),
    ensures
        inner_sum(adj, s, k, k) == 2 * pairs_below(adj, s, k),
    decreases k,
{
    if k > 0 {
        let j = k - 1;
        lemma_handshake_below(adj, s, j);
        lemma_inner_sum_widen(adj, s, j, j);
        lemma_joined_below(adj, s, j, j);
        assert(!adj[j][j]);
    }
}

/// `x`, but at most `cap`.
pub open spec fn capped(x: int, cap: int) -> int {
    if x < cap {
        x
    } else {
        cap
    }
}

/// What `x`, capped, has above the level `c`.
pub open spec fn excess(x: int, cap: int, c: int) -> int {
    if capped(x, cap) > c {
        capped(x, cap) - c
    } else {
        0
    }
}

/// Sum of the capped values of the members below `i`.
pub open spec fn picked_sum(vals: Seq<usize>, s: Seq<bool>, i: int, cap: int) -> int
    decreases i,
{
    if i <= 0 {
        0
    } else {
        picked_sum(vals, s, i - 1, cap) + if s[i - 1] {
            capped(vals[i - 1] as int, cap)
        } else {
            0
        }
    }
}

/// Sum of the first `i` capped values.
pub open spec fn head_sum(vals: Seq<usize>, i: int, cap: int) -> int
    decreases i,
{
    if i <= 0 {
        0
    } else {
        head_sum(vals, i - 1, cap) + capped(vals[i - 1] as int, cap)
    }
}

/// Sum of the first `i` excesses.
pub open spec fn excess_sum(vals: Seq<usize>, i: int, cap: int, c: int) -> int
    decreases i,
{
    if i <= 0 {
        0
    } else {
        excess_sum(vals, i - 1, cap, c) + excess(vals[i - 1] as int, cap, c)
    }
}

/// Adds the excess of one more value to a running sum.
pub open spec fn excess_adder(cap: int, c: int) -> spec_fn(int, usize) -> int {
    |acc: int, x: usize| acc + excess(x as int, cap, c)
}

/// A member that is not its own neighbour has fewer neighbours among the
/// members than there are members.
pub proof fn lemma_count_both_spare(a: Seq<bool>, s: Seq<bool>, v: int, k: int)
    requires
        0 <= v < s.len(),
        0 <= k <= s.len(),
        s[v],
        !a[v],
    ensures
        count_both(a, s, k) + (if v < k { 1int } else { 0int }) <= count_true(s, k),
    decreases k,
{
    if k > 0 {
        lemma_count_both_spare(a, s, v, k - 1);
    }
}

/// The internal degrees of the members add up to no more than their degrees,
/// each capped at one less than the number of members.
pub proof fn lemma_inner_sum_capped(adj: Seq<Seq<bool>>, s: Seq<bool>, i: int)
    requires
        is_simple(adj),
        adj.len() <= usize::MAX,
        s.len() == adj.len(),
        0 <= i <= adj.len(),
    ensures
        inner_sum(adj, s, i, adj.len() as int) <= picked_sum(degree_seq(adj), s, i, popcount(s) - 1),
    decreases i,
{
    if i > 0 {
        let n = adj.len() as int;
        lemma_inner_sum_capped(adj, s, i - 1);
        if s[i - 1] {
            lemma_count_both_bound(adj[i - 1], s, n);
            lemma_count_both_spare(adj[i - 1], s, i - 1, n);
            lemma_count_true_bound(adj[i - 1], n);
            assert(adj[i - 1].len() == n);
            assert(degree_seq(adj)[i - 1] == popcount(adj[i - 1]));
        }
    }
}

/// The picked values exceed a level `c`, counted once for each member, by no
/// more than all the excesses together.
pub proof fn lemma_picked_by_excess(vals: Seq<usize>, s: Seq<bool>, i: int, cap: int, c: int)
    requires
        0 <= i,
    ensures
        picked_sum(vals, s, i, cap) <= count_true(s, i) * c + excess_sum(vals, i, cap, c),
        0 <= excess_sum(vals, i, cap, c),
    decreases i,
{
    if i > 0 {
        lemma_picked_by_excess(vals, s, i - 1, cap, c);
        let m = count_true(s, i - 1) as int;
        assert((m + 1) * c == m * c + c) by (nonlinear_arith);
    } else {
        assert(0 * c == 0) by (nonlinear_arith);
    }
}

/// The sum of the excesses, as a fold.
pub proof fn lemma_excess_sum_fold(vals: Seq<usize>, i: int, cap: int, c: int)
    requires
        0 <= i <= vals.len(),
    ensures
        excess_sum(vals, i, cap, c) == vals.take(i).fold_left(0int, excess_adder(cap, c)),
    decreases i,
{
    if i > 0 {
        lemma_excess_sum_fold(vals, i - 1, cap, c);
        assert(vals.take(i).drop_last() =~= vals.take(i - 1));
        assert(vals.take(i).last() == vals[i - 1]);
    }
}

/// The sum of all excesses does not depend on the order of the values.
pub proof fn lemma_excess_sum_permutation(a: Seq<usize>, b: Seq<usize>, cap: int, c: int)
    requires
        a.to_multiset() == b.to_multiset(),
    ensures
        a.len() == b.len(),
        excess_sum(a, a.len() as int, cap, c) == excess_sum(b, b.len() as int, cap, c),
{
    a.to_multiset_ensures();
    b.to_multiset_ensures();
    lemma_excess_sum_fold(a, a.len() as int, cap, c);
    lemma_excess_sum_fold(b, b.len() as int, cap, c);
    assert(a.take(a.len() as int) =~= a);
    assert(b.take(b.len() as int) =~= b);
    let f = excess_adder(cap, c);
    assert(vstd::seq_lib::commutative_foldl(f));
    vstd::seq_lib::lemma_fold_left_permutation(a, b, f, 0int);
}

/// In a descending sequence, the values from position `k` on have no excess
/// above the capped value at position `k - 1`.
pub proof fn lemma_excess_tail(d: Seq<usize>, k: int, i: int, cap: int)
    requires
        descending(d),
        1 <= k <= i <= d.len(),
    ensures
        excess_sum(d, i, cap, capped(d[k - 1] as int, cap)) == excess_sum(
            d,
            k,
            cap,
            capped(d[k - 1] as int, cap),
        ),
    decreases i,
{
    if i > k {
        lemma_excess_tail(d, k, i - 1, cap);
        assert(d[k - 1] >= d[i - 1]);
    }
}

/// In a descending sequence, each of the first `k` capped values is the
/// capped value at position `k - 1` plus its excess above it.
pub proof fn lemma_head_by_excess(d: Seq<usize>, k: int, i: int, cap: int)
    requires
        descending(d),
        0 <= i <= k <= d.len(),
        1 <= k,
    ensures
        head_sum(d, i, cap) == i * capped(d[k - 1] as int, cap) + excess_sum(
            d,
            i,
            cap,
            capped(d[k - 1] as int, cap),
        ),
    decreases i,
{
    let c = capped(d[k - 1] as int, cap);
    if i > 0 {
        lemma_head_by_excess(d, k, i - 1, cap);
        assert(d[i - 1] >= d[k - 1]);
        assert(i * c == (i - 1) * c + c) by (nonlinear_arith);
    } else {
        assert(0 * c == 0) by (nonlinear_arith);
    }
}

/// The sum in `UB_edges(k)` is the sum of the capped steps of the table.
pub proof fn lemma_capped_sum_steps(pref: Seq<usize>, k: int, i: int)
    requires
        0 <= i < pref.len(),
        forall|j: int| 0 <= j < pref.len() - 1 ==> pref[j] <= #[trigger] pref[j + 1],
    ensures
        capped_sum(pref, k, i) == head_sum(steps(pref), i, k - 1),
    decreases i,
{
    if i > 0 {
        lemma_capped_sum_steps(pref, k, i - 1);
        assert(pref[i - 1] <= pref[(i - 1) + 1]);
        assert(steps(pref)[i - 1] == pref[i] - pref[i - 1]);
    }
}

/// The degree bound holds: the vertices of `s` span at most `UB_edges(|s|)` edges.
pub proof fn lemma_ub_edges_sound(adj: Seq<Seq<bool>>, pref: Seq<usize>, s: Seq<bool>)
    requires
        is_simple(adj),
        adj.len() <= usize::MAX,
        is_degree_prefix(adj, pref),
        s.len() == adj.len(),
    ensures
        edges_within(adj, s) <= ub_edges_of(pref, popcount(s) as int),
{
    let n = adj.len() as int;
    let k = popcount(s) as int;
    let cap = k - 1;
    let degs = degree_seq(adj);
    let d = steps(pref);
    lemma_count_true_bound(s, n);
    lemma_capped_sum_steps(pref, k, k);
    if k == 0 {
        lemma_pairs_clique_bound(adj, s, n);
        assert(0 * (0 - 1) == 0) by (nonlinear_arith);
    } else {
        let c = capped(d[k - 1] as int, cap);
        lemma_handshake_below(adj, s, n);
        lemma_inner_sum_capped(adj, s, n);
        lemma_picked_by_excess(degs, s, n, cap, c);
        lemma_excess_sum_permutation(d, degs, cap, c);
        lemma_excess_tail(d, k, n, cap);
        lemma_head_by_excess(d, k, k, cap);
    }
}

/// The test of the max-k search is sound: where `UB_edges(k)` is below the
/// number of edges that density `gamma` requires of `k` vertices, no `k`
/// vertices have density `gamma`.
pub proof fn lemma_bound_rules_out(
    adj: Seq<Seq<bool>>,
    pref: Seq<usize>,
    gamma: Ratio,
    s: Seq<bool>,
)
    requires
        is_simple(adj),
        adj.len() * adj.len() <= usize::MAX,
        is_degree_prefix(adj, pref),
        gamma.wf(),
        s.len() == adj.len(),
        ub_edges_of(pref, popcount(s) as int) < required_edges(gamma, popcount(s)),
    ensures
        !subset_of(adj, s).feasible(gamma),
{
    let sub = subset_of(adj, s);
    lemma_density_fits(adj, sub);
    if sub.size == 0 {
        assert(sub.size * (sub.size - 1) == 0) by (nonlinear_arith)
            requires sub.size == 0;
    }
    lemma_ub_edges_sound(adj, pref, s);
    lemma_feasible_by_edges(sub, gamma);
}

} // verus!
