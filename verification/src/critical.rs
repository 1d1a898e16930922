//! Internal degrees and the critical sets built from them.

use crate::bits::{bit_at, lemma_count_both_bound};
use crate::graph::inner_degree;
use crate::solution::Solution;
use vstd::prelude::*;

verus! {

/// MinInS over the members below `k`; `usize::MAX` where there is none.
pub open spec fn min_in_upto(adj: Seq<Seq<bool>>, s: Seq<bool>, k: int) -> int
    decreases k,
{
    if k <= 0 {
        usize::MAX as int
    } else if s[k - 1] && inner_degree(adj, s, k - 1) < min_in_upto(adj, s, k - 1) {
        inner_degree(adj, s, k - 1) as int
    } else {
        min_in_upto(adj, s, k - 1)
    }
}

/// MaxOutS over the outsiders below `k`; 0 where there is none.
pub open spec fn max_out_upto(adj: Seq<Seq<bool>>, s: Seq<bool>, k: int) -> int
    decreases k,
{
    if k <= 0 {
        0
    } else if !s[k - 1] && inner_degree(adj, s, k - 1) > max_out_upto(adj, s, k - 1) {
        inner_degree(adj, s, k - 1) as int
    } else {
        max_out_upto(adj, s, k - 1)
    }
}

/// The least internal degree among the outsiders below `k`; `usize::MAX` where there is none.
pub open spec fn min_out_upto(adj: Seq<Seq<bool>>, s: Seq<bool>, k: int) -> int
    decreases k,
{
    if k <= 0 {
        usize::MAX as int
    } else if !s[k - 1] && inner_degree(adj, s, k - 1) < min_out_upto(adj, s, k - 1) {
        inner_degree(adj, s, k - 1) as int
    } else {
        min_out_upto(adj, s, k - 1)
    }
}

/// MinInS = min over u in S of |N(u) ∩ S|.
pub open spec fn min_in(adj: Seq<Seq<bool>>, s: Seq<bool>) -> int {
    min_in_upto(adj, s, s.len() as int)
}

/// MaxOutS = max over v outside S of |N(v) ∩ S|.
pub open spec fn max_out(adj: Seq<Seq<bool>>, s: Seq<bool>) -> int {
    max_out_upto(adj, s, s.len() as int)
}

/// The least |N(v) ∩ S| over v outside S.
pub open spec fn min_out(adj: Seq<Seq<bool>>, s: Seq<bool>) -> int {
    min_out_upto(adj, s, s.len() as int)
}

/// `u` is in A: a member of least internal degree.
pub open spec fn is_critical_in(adj: Seq<Seq<bool>>, s: Seq<bool>, u: int) -> bool {
    0 <= u < s.len() && s[u] && inner_degree(adj, s, u) == min_in(adj, s)
}

/// `v` is in B: an outsider of greatest internal degree.
pub open spec fn is_critical_out(adj: Seq<Seq<bool>>, s: Seq<bool>, v: int) -> bool {
    0 <= v < s.len() && !s[v] && inner_degree(adj, s, v) == max_out(adj, s)
}

/// `v` has the wanted membership and an internal degree in `lo ..= hi`.
pub open spec fn selects(
    adj: Seq<Seq<bool>>,
    s: Seq<bool>,
    member: bool,
    lo: int,
    hi: int,
    v: int,
) -> bool {
    0 <= v < s.len() && s[v] == member && lo <= inner_degree(adj, s, v) <= hi
}

/// `list` holds, in ascending order, exactly the vertices that satisfy `selects`.
pub open spec fn lists_selected(
    adj: Seq<Seq<bool>>,
    s: Seq<bool>,
    member: bool,
    lo: int,
    hi: int,
    list: Seq<usize>,
) -> bool {
    &&& forall|k: int| 0 <= k < list.len()
        ==> selects(adj, s, member, lo, hi, #[trigger] list[k] as int)
    &&& forall|k: int, l: int| 0 <= k < l < list.len() ==> list[k] < list[l]
    &&& forall|v: int| #[trigger] selects(adj, s, member, lo, hi, v) ==> list.contains(v as usize)
}

/// MinInS is a lower bound of the members' internal degrees, and some member
/// attains it.
pub proof fn lemma_min_in(adj: Seq<Seq<bool>>, s: Seq<bool>, k: int)
    requires
        0 <= k <= s.len(),
        s.len() == adj.len(),
        adj.len() < usize::MAX,
    ensures
        forall|u: int| 0 <= u < k && s[u]
            ==> min_in_upto(adj, s, k) <= #[trigger] inner_degree(adj, s, u),
        (exists|u: int| 0 <= u < k && s[u]) ==> exists|u: int|
            0 <= u < k && s[u] && #[trigger] inner_degree(adj, s, u) == min_in_upto(adj, s, k),
        (forall|u: int| 0 <= u < k ==> !s[u]) ==> min_in_upto(adj, s, k) == usize::MAX,
    decreases k,
{
    if k > 0 {
        lemma_min_in(adj, s, k - 1);
        if exists|u: int| 0 <= u < k && s[u] {
            if s[k - 1] && inner_degree(adj, s, k - 1) < min_in_upto(adj, s, k - 1) {
                assert(0 <= k - 1 < k && s[k - 1]
                    && inner_degree(adj, s, k - 1) == min_in_upto(adj, s, k));
            } else if exists|u: int| 0 <= u < k - 1 && s[u] {
                let w = choose|u: int|
                    0 <= u < k - 1 && s[u] && #[trigger] inner_degree(adj, s, u) == min_in_upto(
                        adj,
                        s,
                        k - 1,
                    );
                assert(0 <= w < k && s[w] && inner_degree(adj, s, w) == min_in_upto(adj, s, k));
            } else {
                lemma_count_both_bound(adj[k - 1], s, adj.len() as int);
            }
        }
    }
}

/// MaxOutS is an upper bound of the outsiders' internal degrees, and some
/// outsider attains it.
pub proof fn lemma_max_out(adj: Seq<Seq<bool>>, s: Seq<bool>, k: int)
    requires
        0 <= k <= s.len(),
    ensures
        0 <= max_out_upto(adj, s, k),
        forall|v: int| 0 <= v < k && !s[v]
            ==> #[trigger] inner_degree(adj, s, v) <= max_out_upto(adj, s, k),
        (exists|v: int| 0 <= v < k && !s[v]) ==> exists|v: int|
            0 <= v < k && !s[v] && #[trigger] inner_degree(adj, s, v) == max_out_upto(adj, s, k),
        (forall|v: int| 0 <= v < k ==> s[v]) ==> max_out_upto(adj, s, k) == 0,
    decreases k,
{
    if k > 0 {
        lemma_max_out(adj, s, k - 1);
        if exists|v: int| 0 <= v < k && !s[v] {
            if !s[k - 1] && inner_degree(adj, s, k - 1) > max_out_upto(adj, s, k - 1) {
                assert(0 <= k - 1 < k && !s[k - 1]
                    && inner_degree(adj, s, k - 1) == max_out_upto(adj, s, k));
            } else if exists|v: int| 0 <= v < k - 1 && !s[v] {
                let w = choose|v: int|
                    0 <= v < k - 1 && !s[v] && #[trigger] inner_degree(adj, s, v) == max_out_upto(
                        adj,
                        s,
                        k - 1,
                    );
                assert(0 <= w < k && !s[w] && inner_degree(adj, s, w) == max_out_upto(adj, s, k));
            } else {
                assert(0 <= k - 1 < k && !s[k - 1]
                    && inner_degree(adj, s, k - 1) == max_out_upto(adj, s, k));
            }
        }
    }
}

/// The least outside degree is a lower bound of the outsiders' internal
/// degrees, and some outsider attains it.
pub proof fn lemma_min_out(adj: Seq<Seq<bool>>, s: Seq<bool>, k: int)
    requires
        0 <= k <= s.len(),
        s.len() == adj.len(),
        adj.len() < usize::MAX,
    ensures
        forall|v: int| 0 <= v < k && !s[v]
            ==> min_out_upto(adj, s, k) <= #[trigger] inner_degree(adj, s, v),
        (exists|v: int| 0 <= v < k && !s[v]) ==> exists|v: int|
            0 <= v < k && !s[v] && #[trigger] inner_degree(adj, s, v) == min_out_upto(adj, s, k),
    decreases k,
{
    if k > 0 {
        lemma_min_out(adj, s, k - 1);
        if exists|v: int| 0 <= v < k && !s[v] {
            if !s[k - 1] && inner_degree(adj, s, k - 1) < min_out_upto(adj, s, k - 1) {
                assert(0 <= k - 1 < k && !s[k - 1]
                    && inner_degree(adj, s, k - 1) == min_out_upto(adj, s, k));
            } else if exists|v: int| 0 <= v < k - 1 && !s[v] {
                let w = choose|v: int|
                    0 <= v < k - 1 && !s[v] && #[trigger] inner_degree(adj, s, v) == min_out_upto(
                        adj,
                        s,
                        k - 1,
                    );
                assert(0 <= w < k && !s[w] && inner_degree(adj, s, w) == min_out_upto(adj, s, k));
            } else {
                lemma_count_both_bound(adj[k - 1], s, adj.len() as int);
                lemma_min_out_none(adj, s, k - 1);
            }
        }
    }
}

/// Without an outsider below `k` the least outside degree is the sentinel.
pub proof fn lemma_min_out_none(adj: Seq<Seq<bool>>, s: Seq<bool>, k: int)
    requires
        forall|v: int| 0 <= v < k ==> s[v],
    ensures
        min_out_upto(adj, s, k) == usize::MAX,
    decreases k,
{
    if k > 0 {
        lemma_min_out_none(adj, s, k - 1);
    }
}

/// The internal degree of every vertex: entry `v` is |N(v) ∩ S|.
pub fn inner_degrees(sol: &Solution) -> (r: Vec<usize>)
    requires
        sol.wf(),
    ensures
        tabulates(sol.host()@, sol@.members, r@),
{
    let n = sol.graph().n();
    let mut degs: Vec<usize> = Vec::with_capacity(n);
    let mut v: usize = 0;
    while v < n
        invariant
            v <= n,
            n == sol@.members.len(),
            sol.wf(),
            degs@.len() == v,
            forall|w: int| 0 <= w < v ==> degs@[w] == inner_degree(sol.host()@, sol@.members, w),
        decreases n - v,
    {
        let d = sol.inner_degree(v);
        degs.push(d);
        v += 1;
    }
    degs
}

/// `degs` holds the internal degree of each vertex.
pub open spec fn tabulates(adj: Seq<Seq<bool>>, s: Seq<bool>, degs: Seq<usize>) -> bool {
    &&& degs.len() == s.len()
    &&& forall|w: int| 0 <= w < degs.len() ==> #[trigger] degs[w] == inner_degree(adj, s, w)
}

/// MinInS, MaxOutS and the least outside degree, from a table of internal degrees.
pub fn degree_extremes(sol: &Solution, degs: &Vec<usize>) -> (r: (usize, usize, usize))
    requires
        sol.wf(),
        tabulates(sol.host()@, sol@.members, degs@),
    ensures
        r.0 == min_in(sol.host()@, sol@.members),
        r.1 == max_out(sol.host()@, sol@.members),
        r.2 == min_out(sol.host()@, sol@.members),
{
    let n = degs.len();
    let set = sol.bitset();
    let mut lo_in: usize = usize::MAX;
    let mut hi_out: usize = 0;
    let mut lo_out: usize = usize::MAX;
    let mut v: usize = 0;
    while v < n
        invariant
            v <= n,
            n == degs@.len(),
            set@ == sol@.members,
            tabulates(sol.host()@, sol@.members, degs@),
            lo_in == min_in_upto(sol.host()@, sol@.members, v as int),
            hi_out == max_out_upto(sol.host()@, sol@.members, v as int),
            lo_out == min_out_upto(sol.host()@, sol@.members, v as int),
        decreases n - v,
    {
        let d = degs[v];
        if bit_at(set, v) {
            if d < lo_in {
                lo_in = d;
            }
        } else {
            if d > hi_out {
                hi_out = d;
            }
            if d < lo_out {
                lo_out = d;
            }
        }
        v += 1;
    }
    (lo_in, hi_out, lo_out)
}

/// The vertices of the wanted membership whose internal degree lies in
/// `lo ..= hi`, in ascending order.
pub fn select_vertices(
    sol: &Solution,
    degs: &Vec<usize>,
    member: bool,
    lo: usize,
    hi: usize,
) -> (r: Vec<usize>)
    requires
        sol.wf(),
        tabulates(sol.host()@, sol@.members, degs@),
    ensures
        lists_selected(sol.host()@, sol@.members, member, lo as int, hi as int, r@),
{
    let n = degs.len();
    let set = sol.bitset();
    let ghost adj = sol.host()@;
    let ghost s = sol@.members;
    let mut out: Vec<usize> = Vec::new();
    let mut v: usize = 0;
    while v < n
        invariant
            v <= n,
            n == degs@.len(),
            set@ == s,
            s == sol@.members,
            adj == sol.host()@,
            tabulates(adj, s, degs@),
            forall|k: int| 0 <= k < out@.len()
                ==> selects(adj, s, member, lo as int, hi as int, #[trigger] out@[k] as int)
                    && out@[k] < v,
            forall|k: int, l: int| 0 <= k < l < out@.len() ==> out@[k] < out@[l],
            forall|w: int| 0 <= w < v
                && #[trigger] selects(adj, s, member, lo as int, hi as int, w)
                    ==> out@.contains(w as usize),
        decreases n - v,
    {
        if bit_at(set, v) == member && lo <= degs[v] && degs[v] <= hi {
            let ghost before = out@;
            out.push(v);
            proof {
                assert(out@[before.len() as int] == v);
                assert forall|w: int| 0 <= w < v + 1
                    && #[trigger] selects(adj, s, member, lo as int, hi as int, w)
                        implies out@.contains(w as usize) by {
                    if w < v {
                        let k = choose|k: int| 0 <= k < before.len() && before[k] == w as usize;
                        assert(out@[k] == before[k]);
                    }
                }
            }
        }
        v += 1;
    }
    out
}

/// A: the members of least internal degree, ascending.
pub fn critical_in(sol: &Solution) -> (r: Vec<usize>)
    requires
        sol.wf(),
    ensures
        forall|k: int| 0 <= k < r@.len()
            ==> is_critical_in(sol.host()@, sol@.members, #[trigger] r@[k] as int),
        forall|k: int, l: int| 0 <= k < l < r@.len() ==> r@[k] < r@[l],
        forall|u: int| #[trigger] is_critical_in(sol.host()@, sol@.members, u)
            ==> r@.contains(u as usize),
{
    let degs = inner_degrees(sol);
    let (lo_in, _, _) = degree_extremes(sol, &degs);
    let r = select_vertices(sol, &degs, true, lo_in, lo_in);
    proof {
        let adj = sol.host()@;
        let s = sol@.members;
        assert forall|u: int| #[trigger] is_critical_in(adj, s, u)
            implies r@.contains(u as usize) by {
            assert(selects(adj, s, true, lo_in as int, lo_in as int, u));
        }
    }
    r
}

/// B: the outsiders of greatest internal degree, ascending.
pub fn critical_out(sol: &Solution) -> (r: Vec<usize>)
    requires
        sol.wf(),
    ensures
        forall|k: int| 0 <= k < r@.len()
            ==> is_critical_out(sol.host()@, sol@.members, #[trigger] r@[k] as int),
        forall|k: int, l: int| 0 <= k < l < r@.len() ==> r@[k] < r@[l],
        forall|v: int| #[trigger] is_critical_out(sol.host()@, sol@.members, v)
            ==> r@.contains(v as usize),
{
    let degs = inner_degrees(sol);
    let (_, hi_out, _) = degree_extremes(sol, &degs);
    let r = select_vertices(sol, &degs, false, hi_out, hi_out);
    proof {
        let adj = sol.host()@;
        let s = sol@.members;
        assert forall|v: int| #[trigger] is_critical_out(adj, s, v)
            implies r@.contains(v as usize) by {
            assert(selects(adj, s, false, hi_out as int, hi_out as int, v));
        }
    }
    r
}

} // verus!
