//! Constructors for an initial subset S.

use crate::bits::{
    bit_at, count_both, lemma_count_both_bound, lemma_count_both_update, lemma_outsider_exists,
    popcount,
};
use crate::critical::{
    critical_out, degree_extremes, inner_degrees, is_critical_out, lemma_max_out, max_out,
    select_vertices, selects, tabulates,
};
use crate::graph::{edges_within, inner_degree, is_simple, Graph};
use crate::ratio::Ratio;
use crate::rng::{index_range, lemma_permutation, permute, pick, rand_below};
use crate::solution::{
    lemma_add_consistent, lemma_add_remove_identity, lemma_density_fits, lemma_subset_bounds,
    Solution, Subset,
};
use rand_chacha::ChaCha8Rng;
use vstd::assert_by_contradiction;
use vstd::prelude::*;

verus! {

/// A uniformly random subset of `k` vertices.
pub fn random_k<'g>(graph: &'g Graph, k: usize, rng: &mut ChaCha8Rng) -> (sol: Solution<'g>)
    requires
        graph.wf(),
        k <= graph@.len(),
    ensures
        sol.wf(),
        sol.host() == *graph,
        sol@.size == k,
{
    let n = graph.n();
    let mut idx = index_range(n);
    let ghost sorted = idx@;
    permute(&mut idx, rng);
    proof {
        lemma_permutation(sorted, idx@);
        assert forall|j: int| 0 <= j < n implies idx@[j] < n by {
            assert(idx@.contains(idx@[j]));
            assert(sorted.contains(idx@[j]));
        }
    }
    let mut sol = Solution::new(graph);
    let mut i: usize = 0;
    while i < k
        invariant
            i <= k <= n,
            n == graph@.len(),
            idx@.len() == n,
            idx@.no_duplicates(),
            forall|j: int| 0 <= j < n ==> idx@[j] < n,
            sol.wf(),
            sol.host() == *graph,
            sol@.size == i,
            forall|j: int| i <= j < n ==> !sol@.members[idx@[j] as int],
        decreases k - i,
    {
        sol.add(idx[i]);
        i += 1;
    }
    sol
}

/// `u` comes before `w` when vertices are ranked by degree, highest first,
/// and by index among equal degrees.
pub open spec fn outranks(adj: Seq<Seq<bool>>, u: int, w: int) -> bool {
    popcount(adj[u]) > popcount(adj[w]) || (popcount(adj[u]) == popcount(adj[w]) && u < w)
}

/// The `k` vertices of highest degree; ties go to the lower index.
pub fn greedy_k<'g>(graph: &'g Graph, k: usize) -> (sol: Solution<'g>)
    requires
        graph.wf(),
        k <= graph@.len(),
    ensures
        sol.wf(),
        sol.host() == *graph,
        sol@.size == k,
        forall|u: int, w: int|
            0 <= u < graph@.len() && 0 <= w < graph@.len() && sol@.members[u] && !sol@.members[w]
                ==> #[trigger] outranks(graph@, u, w),
{
    let n = graph.n();
    let mut degs: Vec<usize> = Vec::with_capacity(n);
    let mut v: usize = 0;
    while v < n
        invariant
            v <= n,
            n == graph@.len(),
            degs@.len() == v,
            forall|w: int| 0 <= w < v ==> degs@[w] == popcount(graph@[w]),
        decreases n - v,
    {
        degs.push(graph.degree(v));
        v += 1;
    }
    let mut sol = Solution::new(graph);
    let mut i: usize = 0;
    while i < k
        invariant
            i <= k <= n,
            n == graph@.len(),
            degs@.len() == n,
            forall|w: int| 0 <= w < n ==> degs@[w] == popcount(graph@[w]),
            sol.wf(),
            sol.host() == *graph,
            sol@.size == i,
            forall|u: int, w: int|
                0 <= u < n && 0 <= w < n && sol@.members[u] && !sol@.members[w]
                    ==> #[trigger] outranks(
                    graph@,
                    u,
                    w,
                ),
        decreases k - i,
    {
        let set = sol.bitset();
        let mut top: usize = n;
        let mut w: usize = 0;
        while w < n
            invariant
                w <= n,
                top <= n,
                n == graph@.len(),
                set@ == sol@.members,
                sol@.members.len() == n,
                degs@.len() == n,
                forall|x: int| 0 <= x < n ==> degs@[x] == popcount(graph@[x]),
                top == n ==> forall|x: int| 0 <= x < w ==> sol@.members[x],
                top < n ==> top < w && !sol@.members[top as int] && forall|x: int|
                    0 <= x < w && !sol@.members[x] && x != top
                        ==> #[trigger] outranks(graph@, top as int, x),
            decreases n - w,
        {
            if !bit_at(set, w) {
                if top == n || degs[w] > degs[top] {
                    proof {
                        assert forall|x: int| 0 <= x < w && !sol@.members[x]
                            implies #[trigger] outranks(
                            graph@,
                            w as int,
                            x,
                        ) by {
                            if x != top {
                                assert(outranks(graph@, top as int, x));
                            }
                        }
                    }
                    top = w;
                } else {
                    assert(outranks(graph@, top as int, w as int));
                }
            }
            w += 1;
        }
        proof {
            lemma_outsider_exists(sol@.members);
        }
        sol.add(top);
        i += 1;
    }
    sol
}

/// The set `start` with the first `i` vertices of `order` put in.
pub open spec fn grown(start: Seq<bool>, order: Seq<usize>, i: int) -> Seq<bool>
    decreases i,
{
    if i <= 0 {
        start
    } else {
        grown(start, order, i - 1).update(order[i - 1] as int, true)
    }
}

/// Each vertex of `order` was, when its turn came, an outsider with the most
/// neighbours in the set grown until then.
pub open spec fn is_greedy_order(adj: Seq<Seq<bool>>, start: Seq<bool>, order: Seq<usize>) -> bool {
    forall|i: int|
        0 <= i < order.len()
            ==> is_critical_out(adj, #[trigger] grown(start, order, i), order[i] as int)
}

/// `members` is what greedy growth from the single vertex `seed` gives when
/// it takes the vertices of `order`, one after the other.
pub open spec fn is_greedy_growth(
    adj: Seq<Seq<bool>>,
    seed: int,
    order: Seq<usize>,
    members: Seq<bool>,
) -> bool {
    let start = Subset::empty(adj.len()).members.update(seed, true);
    &&& 0 <= seed < adj.len()
    &&& is_greedy_order(adj, start, order)
    &&& members == grown(start, order, order.len() as int)
}

/// What is grown in `i` steps depends on the first `i` vertices of the order only.
pub proof fn lemma_grown_prefix(start: Seq<bool>, a: Seq<usize>, b: Seq<usize>, i: int)
    requires
        i <= a.len(),
        i <= b.len(),
        forall|j: int| 0 <= j < i ==> a[j] == b[j],
    ensures
        grown(start, a, i) == grown(start, b, i),
    decreases i,
{
    if i > 0 {
        lemma_grown_prefix(start, a, b, i - 1);
    }
}

/// Grows S to `k` vertices: each round adds an outsider with the most
/// neighbours in S, chosen at random among equals.
pub fn fill_greedily<'g>(sol: &mut Solution<'g>, k: usize, rng: &mut ChaCha8Rng)
    requires
        old(sol).wf(),
        k <= old(sol)@.members.len(),
    ensures
        final(sol).wf(),
        final(sol).host() == old(sol).host(),
        final(sol)@.size == if old(sol)@.size >= k { old(sol)@.size } else { k as nat },
        exists|order: Seq<usize>|
            {
                &&& #[trigger] is_greedy_order(old(sol).host()@, old(sol)@.members, order)
                &&& old(sol)@.size + order.len() == final(sol)@.size
                &&& final(sol)@.members == grown(old(sol)@.members, order, order.len() as int)
            },
{
    let ghost adj = sol.host()@;
    let ghost start = sol@.members;
    let ghost mut order: Seq<usize> = Seq::empty();
    while sol.size() < k
        invariant
            sol.wf(),
            sol.host() == old(sol).host(),
            adj == sol.host()@,
            start == old(sol)@.members,
            k <= sol@.members.len(),
            sol@.members.len() == start.len(),
            sol@.size <= k || old(sol)@.size >= k,
            old(sol)@.size >= k ==> sol@.size == old(sol)@.size,
            old(sol)@.size + order.len() == sol@.size,
            sol@.members == grown(start, order, order.len() as int),
            is_greedy_order(adj, start, order),
        decreases k - sol@.size,
    {
        let cand = critical_out(sol);
        let ghost s = sol@.members;
        proof {
            lemma_outsider_exists(s);
            lemma_max_out(adj, s, s.len() as int);
            let y = choose|v: int|
                0 <= v < s.len() && !s[v] && #[trigger] inner_degree(adj, s, v) == max_out(adj, s);
            assert(is_critical_out(adj, s, y));
            assert(cand@.contains(y as usize));
        }
        let v = pick(&cand, rng).unwrap();
        sol.add(v);
        proof {
            let longer = order.push(v);
            assert forall|i: int| 0 <= i < longer.len() implies is_critical_out(
                adj,
                #[trigger] grown(start, longer, i),
                longer[i] as int,
            ) by {
                lemma_grown_prefix(start, order, longer, i);
                if i < order.len() {
                    assert(is_critical_out(adj, grown(start, order, i), order[i] as int));
                }
            }
            lemma_grown_prefix(start, order, longer, order.len() as int);
            order = longer;
        }
    }
}

/// Starts from one random vertex and grows greedily to `k` vertices.
pub fn greedy_random_k<'g>(graph: &'g Graph, k: usize, rng: &mut ChaCha8Rng) -> (sol: Solution<'g>)
    requires
        graph.wf(),
        1 <= graph@.len(),
        k <= graph@.len(),
    ensures
        sol.wf(),
        sol.host() == *graph,
        sol@.size == if k >= 1 { k as nat } else { 1 },
        exists|seed: int, order: Seq<usize>| #[trigger] is_greedy_growth(graph@, seed, order, sol@.members),
{
    let mut sol = Solution::new(graph);
    let seed = rand_below(rng, graph.n());
    sol.add(seed);
    let ghost start = sol@.members;
    fill_greedily(&mut sol, k, rng);
    proof {
        let order = choose|order: Seq<usize>|
            {
                &&& #[trigger] is_greedy_order(graph@, start, order)
                &&& 1 + order.len() == sol@.size
                &&& sol@.members == grown(start, order, order.len() as int)
            };
        assert(is_greedy_growth(graph@, seed as int, order, sol@.members));
    }
    sol
}

/// The graph has at least one edge.
pub open spec fn has_edge(adj: Seq<Seq<bool>>) -> bool {
    exists|i: int, j: int| 0 <= i < j < adj.len() && #[trigger] adj[i][j]
}

/// The subset with the members `m`, and the counts that go with them.
pub open spec fn subset_of(adj: Seq<Seq<bool>>, m: Seq<bool>) -> Subset {
    Subset { members: m, size: popcount(m), edges: edges_within(adj, m) }
}

/// `members` is the pair `{u, v}` grown by the vertices of `order`: each was
/// an outsider when its turn came, and each left the density at least `gamma`.
/// The pair is an edge if the graph has one.
pub open spec fn is_dense_growth(
    adj: Seq<Seq<bool>>,
    u: int,
    v: int,
    order: Seq<usize>,
    gamma: Ratio,
    members: Seq<bool>,
) -> bool {
    let start = Subset::empty(adj.len()).members.update(u, true).update(v, true);
    &&& 0 <= u < adj.len()
    &&& 0 <= v < adj.len()
    &&& u != v
    &&& has_edge(adj) ==> adj[u][v]
    &&& keeps_density(adj, start, order, gamma)
    &&& members == grown(start, order, order.len() as int)
}

/// Vertex `i` of `order` is new to the set grown from `start` until then,
/// and the set with it has density at least `gamma`.
pub open spec fn is_dense_step(
    adj: Seq<Seq<bool>>,
    start: Seq<bool>,
    order: Seq<usize>,
    gamma: Ratio,
    i: int,
) -> bool {
    &&& order[i] < start.len()
    &&& !grown(start, order, i)[order[i] as int]
    &&& subset_of(adj, grown(start, order, i + 1)).feasible(gamma)
}

/// Every vertex of `order` is a dense step.
pub open spec fn keeps_density(
    adj: Seq<Seq<bool>>,
    start: Seq<bool>,
    order: Seq<usize>,
    gamma: Ratio,
) -> bool {
    forall|i: int| 0 <= i < order.len() ==> #[trigger] is_dense_step(adj, start, order, gamma, i)
}

/// Taking one more vertex that is new and keeps the density extends a growth.
pub proof fn lemma_keeps_density_push(
    adj: Seq<Seq<bool>>,
    start: Seq<bool>,
    order: Seq<usize>,
    gamma: Ratio,
    v: usize,
)
    requires
        keeps_density(adj, start, order, gamma),
        v < start.len(),
        !grown(start, order, order.len() as int)[v as int],
        subset_of(adj, grown(start, order, order.len() as int).update(v as int, true)).feasible(gamma),
    ensures
        keeps_density(adj, start, order.push(v), gamma),
        grown(start, order.push(v), order.len() as int + 1)
            == grown(start, order, order.len() as int).update(
            v as int,
            true,
        ),
{
    let longer = order.push(v);
    lemma_grown_prefix(start, order, longer, order.len() as int);
    assert forall|i: int| 0 <= i < longer.len() implies #[trigger] is_dense_step(
        adj,
        start,
        longer,
        gamma,
        i,
    ) by {
        lemma_grown_prefix(start, order, longer, i);
        if i < order.len() {
            lemma_grown_prefix(start, order, longer, i + 1);
            assert(is_dense_step(adj, start, order, gamma, i));
        }
    }
}

/// Positions `i` and `j` of `order` hold an edge, lower end first.
pub open spec fn is_edge_at(adj: Seq<Seq<bool>>, order: Seq<usize>, i: int, j: int) -> bool {
    &&& 0 <= i < order.len()
    &&& 0 <= j < order.len()
    &&& order[i] < order[j]
    &&& adj[order[i] as int][order[j] as int]
}

/// Positions `i` and `j` hold the first edge met when `order` is walked for
/// the lower end and, for each lower end, for the upper end.
pub open spec fn is_first_edge_at(adj: Seq<Seq<bool>>, order: Seq<usize>, i: int, j: int) -> bool {
    &&& is_edge_at(adj, order, i, j)
    &&& forall|x: int, y: int|
        (x < i || (x == i && y < j)) ==> !#[trigger] is_edge_at(adj, order, x, y)
}

/// The first edge `(u, v)` with `u < v` met when `order` is walked for `u`
/// and, for each `u`, for `v`. Nothing is returned only if no two vertices of
/// `order` are joined.
pub fn first_edge(graph: &Graph, order: &Vec<usize>) -> (r: Option<(usize, usize)>)
    requires
        graph.wf(),
        forall|i: int| 0 <= i < order@.len() ==> #[trigger] order@[i] < graph@.len(),
    ensures
        r matches Some((u, v)) ==> u < v < graph@.len() && graph@[u as int][v as int],
        r matches Some((u, v)) ==> exists|i: int, j: int|
            #[trigger] is_first_edge_at(graph@, order@, i, j) && order@[i] == u && order@[j] == v,
        r is None ==> forall|i: int, j: int|
            0 <= i < order@.len() && 0 <= j < order@.len() && order@[i] < order@[j]
                ==> !#[trigger] graph@[order@[i] as int][order@[j] as int],
{
    let len = order.len();
    let mut i: usize = 0;
    while i < len
        invariant
            i <= len,
            len == order@.len(),
            graph.wf(),
            forall|x: int| 0 <= x < order@.len() ==> #[trigger] order@[x] < graph@.len(),
            forall|x: int, y: int|
                0 <= x < i && 0 <= y < len && order@[x] < order@[y]
                    ==> !#[trigger] graph@[order@[x] as int][order@[y] as int],
            forall|x: int, y: int| x < i ==> !#[trigger] is_edge_at(graph@, order@, x, y),
        decreases len - i,
    {
        let u = order[i];
        let row = graph.neigh_row(u);
        let mut j: usize = 0;
        while j < len
            invariant
                j <= len,
                i < len,
                len == order@.len(),
                graph.wf(),
                u == order@[i as int],
                row@ == graph@[u as int],
                forall|x: int| 0 <= x < order@.len() ==> #[trigger] order@[x] < graph@.len(),
                forall|y: int|
                    0 <= y < j && u < order@[y] ==> !#[trigger] graph@[u as int][order@[y] as int],
                forall|x: int, y: int|
                    (x < i || (x == i && y < j)) ==> !#[trigger] is_edge_at(graph@, order@, x, y),
            decreases len - j,
        {
            let v = order[j];
            if u < v && bit_at(row, v) {
                assert(is_first_edge_at(graph@, order@, i as int, j as int));
                return Some((u, v));
            }
            j += 1;
        }
        i += 1;
    }
    None
}

/// The vertex `x` has the internal degree `target`.
pub open spec fn has_degree(degs: Seq<usize>, target: usize) -> spec_fn(usize) -> bool {
    |x: usize| degs[x as int] == target
}

/// The items of `list` whose internal degree is `target`, in the order of `list`.
pub fn keep_with_degree(list: &Vec<usize>, degs: &Vec<usize>, target: usize) -> (r: Vec<usize>)
    requires
        forall|i: int| 0 <= i < list@.len() ==> #[trigger] list@[i] < degs@.len(),
    ensures
        r@ == list@.filter(has_degree(degs@, target)),
        forall|k: int| 0 <= k < r@.len()
            ==> list@.contains(#[trigger] r@[k]) && degs@[r@[k] as int] == target,
        forall|i: int| 0 <= i < list@.len() && degs@[#[trigger] list@[i] as int] == target
            ==> r@.contains(list@[i]),
{
    let mut out: Vec<usize> = Vec::new();
    let mut i: usize = 0;
    proof {
        reveal(Seq::filter);
        assert(list@.take(0).filter(has_degree(degs@, target)) =~= out@);
    }
    while i < list.len()
        invariant
            i <= list@.len(),
            out@ == list@.take(i as int).filter(has_degree(degs@, target)),
            forall|x: int| 0 <= x < list@.len() ==> #[trigger] list@[x] < degs@.len(),
            forall|k: int| 0 <= k < out@.len()
                ==> list@.contains(#[trigger] out@[k]) && degs@[out@[k] as int] == target,
            forall|x: int| 0 <= x < i && degs@[#[trigger] list@[x] as int] == target
                ==> out@.contains(list@[x]),
        decreases list@.len() - i,
    {
        let v = list[i];
        proof {
            reveal(Seq::filter);
            assert(list@.take(i + 1).drop_last() =~= list@.take(i as int));
            assert(list@.take(i + 1).last() == v);
        }
        if degs[v] == target {
            let ghost before = out@;
            out.push(v);
            proof {
                assert(out@[before.len() as int] == v);
                assert(list@.contains(v));
                assert forall|x: int| 0 <= x < i + 1 && degs@[#[trigger] list@[x] as int] == target
                    implies out@.contains(list@[x]) by {
                    if x < i {
                        let k = choose|k: int| 0 <= k < before.len() && before[k] == list@[x];
                        assert(out@[k] == before[k]);
                    }
                }
                assert forall|k: int| 0 <= k < out@.len()
                    implies list@.contains(#[trigger] out@[k])
                        && degs@[out@[k] as int] == target by {
                    if k < before.len() {
                        assert(out@[k] == before[k]);
                    }
                }
            }
        }
        i += 1;
    }
    assert(list@.take(list@.len() as int) =~= list@);
    out
}

/// The outsiders of `sol`, in random order.
pub fn shuffled_outsiders(
    sol: &Solution,
    degs: &Vec<usize>,
    rng: &mut ChaCha8Rng,
) -> (r: Vec<usize>)
    requires
        sol.wf(),
        tabulates(sol.host()@, sol@.members, degs@),
    ensures
        r@.no_duplicates(),
        forall|i: int| 0 <= i < r@.len()
            ==> #[trigger] r@[i] < sol@.members.len() && !sol@.members[r@[i] as int],
        forall|v: int| 0 <= v < sol@.members.len() && !sol@.members[v] ==> r@.contains(v as usize),
{
    let mut list = select_vertices(sol, degs, false, 0, usize::MAX);
    let ghost sorted = list@;
    let ghost adj = sol.host()@;
    let ghost s = sol@.members;
    permute(&mut list, rng);
    proof {
        lemma_permutation(sorted, list@);
        assert forall|i: int| 0 <= i < list@.len()
            implies #[trigger] list@[i] < s.len() && !s[list@[i] as int] by {
            assert(list@.contains(list@[i]));
            assert(sorted.contains(list@[i]));
            let k = choose|k: int| 0 <= k < sorted.len() && sorted[k] == list@[i];
            assert(selects(adj, s, false, 0, usize::MAX as int, sorted[k] as int));
        }
        assert forall|v: int| 0 <= v < s.len() && !s[v] implies list@.contains(v as usize) by {
            lemma_count_both_bound(adj[v], s, adj.len() as int);
            lemma_subset_bounds(adj, sol@);
            lemma_density_fits(adj, sol@);
            assert(selects(adj, s, false, 0, usize::MAX as int, v));
            assert(sorted.contains(v as usize));
        }
    }
    list
}

/// Grows a subset while its density stays at least `gamma`.
///
/// The seed is a random edge, or two random vertices where the graph has no
/// edge. Each round inserts a random outsider among those with the most
/// neighbours in S; the first insertion that would take the density below
/// `gamma` is undone and ends the rounds. A last pass then tries every
/// remaining outsider once, in random order, and keeps those that leave the
/// density at least `gamma`.
pub fn greedy_until_gamma<'g>(
    graph: &'g Graph,
    gamma: Ratio,
    rng: &mut ChaCha8Rng,
) -> (sol: Solution<'g>)
    requires
        graph.wf(),
        graph@.len() >= 2,
        gamma.is_probability(),
    ensures
        sol.wf(),
        sol.host() == *graph,
        sol@.size >= 2,
        sol@.feasible(gamma) || sol@.size == 2,
        has_edge(graph@) ==> sol@.feasible(gamma),
        exists|u: int, v: int, order: Seq<usize>|
            sol@.size == 2 + order.len()
                && #[trigger] is_dense_growth(graph@, u, v, order, gamma, sol@.members),
{
    let n = graph.n();
    let ghost adj = graph@;
    let mut sol = Solution::new(graph);
    let mut verts = index_range(n);
    let ghost sorted = verts@;
    permute(&mut verts, rng);
    proof {
        lemma_permutation(sorted, verts@);
        assert forall|j: int| 0 <= j < n implies #[trigger] verts@[j] < n by {
            assert(verts@.contains(verts@[j]));
            assert(sorted.contains(verts@[j]));
        }
    }
    let seed = first_edge(graph, &verts);
    let ghost pair: (int, int);
    match seed {
        Some((u, v)) => {
            sol.add(u);
            sol.add(v);
            proof {
                pair = (u as int, v as int);
                lemma_empty_degree(adj, u as int, v as int);
                assert(sol@.size == 2 && sol@.edges == 1);
                assert(2 * 1 == 2) by (nonlinear_arith);
                assert(sol@.density() == (Ratio { num: 2, den: 2 }));
                assert(2 * gamma.den >= gamma.num * 2);
            }
        },
        None => {
            proof {
                assert(verts@[0] != verts@[1]);
                assert_by_contradiction!(!has_edge(adj), {
                    let (a, b) = choose|i: int, j: int| 0 <= i < j < adj.len()
                        && #[trigger] adj[i][j];
                    assert(sorted[a] == a as usize && sorted[b] == b as usize);
                    assert(sorted.contains(a as usize) && sorted.contains(b as usize));
                    assert(verts@.contains(a as usize) && verts@.contains(b as usize));
                    let x = choose|x: int| 0 <= x < verts@.len() && verts@[x] == a as usize;
                    let y = choose|y: int| 0 <= y < verts@.len() && verts@[y] == b as usize;
                    assert(adj[verts@[x] as int][verts@[y] as int]);
                });
            }
            sol.add(verts[0]);
            sol.add(verts[1]);
            proof {
                pair = (verts@[0] as int, verts@[1] as int);
            }
        },
    }
    let ghost start = sol@.members;
    let ghost mut order: Seq<usize> = Seq::empty();
    loop
        invariant
            sol.wf(),
            sol.host() == *graph,
            adj == graph@,
            n == adj.len(),
            gamma.is_probability(),
            sol@.size >= 2,
            sol@.feasible(gamma) || sol@.size == 2,
            has_edge(adj) ==> sol@.feasible(gamma),
            start.len() == n,
            sol@.size == 2 + order.len(),
            sol@.members == grown(start, order, order.len() as int),
            keeps_density(adj, start, order, gamma),
        decreases n - sol@.size,
    {
        let degs = inner_degrees(&sol);
        let outsiders = shuffled_outsiders(&sol, &degs, rng);
        if outsiders.len() == 0 {
            break ;
        }
        let (_, hi_out, _) = degree_extremes(&sol, &degs);
        let cand = keep_with_degree(&outsiders, &degs, hi_out);
        if cand.len() == 0 {
            break ;
        }
        let v = pick(&cand, rng).unwrap();
        let ghost before = sol@;
        proof {
            assert(outsiders@.contains(v));
            lemma_add_consistent(adj, before, v as int);
            lemma_subset_bounds(adj, before.add(adj, v as int));
            lemma_add_remove_identity(adj, before, v as int);
        }
        sol.add(v);
        if !sol.is_gamma_feasible(gamma) {
            sol.remove(v);
            break ;
        }
        proof {
            lemma_keeps_density_push(adj, start, order, gamma, v);
            order = order.push(v);
        }
    }
    let degs = inner_degrees(&sol);
    let outsiders = shuffled_outsiders(&sol, &degs, rng);
    let mut i: usize = 0;
    while i < outsiders.len()
        invariant
            i <= outsiders@.len(),
            sol.wf(),
            sol.host() == *graph,
            adj == graph@,
            n == adj.len(),
            gamma.is_probability(),
            sol@.size >= 2,
            sol@.feasible(gamma) || sol@.size == 2,
            has_edge(adj) ==> sol@.feasible(gamma),
            start.len() == n,
            sol@.size == 2 + order.len(),
            sol@.members == grown(start, order, order.len() as int),
            keeps_density(adj, start, order, gamma),
            outsiders@.no_duplicates(),
            forall|j: int| i <= j < outsiders@.len()
                ==> #[trigger] outsiders@[j] < n && !sol@.members[outsiders@[j] as int],
        decreases outsiders@.len() - i,
    {
        let v = outsiders[i];
        let ghost before = sol@;
        proof {
            lemma_add_remove_identity(adj, before, v as int);
        }
        sol.add(v);
        if !sol.is_gamma_feasible(gamma) {
            sol.remove(v);
        } else {
            proof {
                lemma_keeps_density_push(adj, start, order, gamma, v);
                order = order.push(v);
            }
        }
        i += 1;
    }
    proof {
        assert(is_dense_growth(adj, pair.0, pair.1, order, gamma, sol@.members));
    }
    sol
}

/// In the empty subset no vertex has a neighbour, and next to a single member
/// `u` a vertex `v` has one exactly if the two are joined.
pub proof fn lemma_empty_degree(adj: Seq<Seq<bool>>, u: int, v: int)
    requires
        is_simple(adj),
        0 <= u < adj.len(),
        0 <= v < adj.len(),
    ensures
        inner_degree(adj, Subset::empty(adj.len()).members, u) == 0,
        inner_degree(adj, Subset::empty(adj.len()).members.update(u, true), v)
            == if adj[u][v] { 1nat } else { 0nat },
{
    let e = Subset::empty(adj.len()).members;
    lemma_none_common(adj[u], e, adj.len() as int);
    lemma_none_common(adj[v], e, adj.len() as int);
    lemma_count_both_update(adj[v], e, u, true, adj.len() as int);
    assert(adj[v][u] == adj[u][v]);
}

/// A row has nothing in common with a set that is clear below `k`.
pub proof fn lemma_none_common(a: Seq<bool>, s: Seq<bool>, k: int)
    requires
        forall|i: int| 0 <= i < k ==> !s[i],
    ensures
        count_both(a, s, k) == 0,
    decreases k,
{
    if k > 0 {
        lemma_none_common(a, s, k - 1);
    }
}

} // verus!
