//! Long-term frequency memory: how often each vertex has been moved.

use vstd::prelude::*;

verus! {

/// A vector of `n` zeros.
pub fn zeros(n: usize) -> (r: Vec<usize>)
    ensures
        r@ == Seq::new(n as nat, |i: int| 0usize),
{
    let mut v: Vec<usize> = Vec::with_capacity(n);
    let mut i: usize = 0;
    while i < n
        invariant
            i <= n,
            v@ == Seq::new(i as nat, |k: int| 0usize),
        decreases n - i,
    {
        v.push(0);
        assert(v@ =~= Seq::new((i + 1) as nat, |k: int| 0usize));
        i += 1;
    }
    v
}

/// One more, unless the counter is at its limit.
pub open spec fn sat_inc(x: usize) -> usize {
    if x < usize::MAX {
        (x + 1) as usize
    } else {
        x
    }
}

/// The counters after `u` and then `v` were counted once more.
pub open spec fn bump_pair(freq: Seq<usize>, u: int, v: int) -> Seq<usize> {
    let f = freq.update(u, sat_inc(freq[u]));
    f.update(v, sat_inc(f[v]))
}

/// Some counter exceeds `k`.
pub open spec fn exceeds(freq: Seq<usize>, k: nat) -> bool {
    exists|i: int| 0 <= i < freq.len() && #[trigger] freq[i] > k
}

/// The counters after the move of `u` and `v` in a subset of `k` vertices:
/// both are counted, and all counters are zeroed if any then exceeds `k`.
pub open spec fn recorded(freq: Seq<usize>, u: int, v: int, k: nat) -> Seq<usize> {
    let f = bump_pair(freq, u, v);
    if exceeds(f, k) {
        Seq::new(f.len(), |i: int| 0usize)
    } else {
        f
    }
}

/// After a move is recorded, no counter exceeds `k`.
pub proof fn lemma_recorded_bounded(freq: Seq<usize>, u: int, v: int, k: nat)
    requires
        0 <= u < freq.len(),
        0 <= v < freq.len(),
    ensures
        recorded(freq, u, v, k).len() == freq.len(),
        forall|i: int| 0 <= i < freq.len() ==> #[trigger] recorded(freq, u, v, k)[i] <= k,
{
    let f = bump_pair(freq, u, v);
    if !exceeds(f, k) {
        assert forall|i: int| 0 <= i < freq.len() implies #[trigger] f[i] <= k by {
            if f[i] > k {
                assert(exceeds(f, k));
            }
        }
    }
}

/// Counts the move of `u` and `v`; zeroes the whole memory if any counter
/// then exceeds `k`.
pub fn record_move(freq: &mut Vec<usize>, u: usize, v: usize, k: usize)
    requires
        u < old(freq)@.len(),
        v < old(freq)@.len(),
    ensures
        final(freq)@ == recorded(old(freq)@, u as int, v as int, k as nat),
        final(freq)@.len() == old(freq)@.len(),
        forall|i: int| 0 <= i < final(freq)@.len() ==> #[trigger] final(freq)@[i] <= k,
{
    proof {
        lemma_recorded_bounded(freq@, u as int, v as int, k as nat);
    }
    let fu = freq[u];
    freq[u] = if fu < usize::MAX { fu + 1 } else { fu };
    let fv = freq[v];
    freq[v] = if fv < usize::MAX { fv + 1 } else { fv };
    assert(freq@ == bump_pair(old(freq)@, u as int, v as int));
    let n = freq.len();
    let mut over = false;
    let mut i: usize = 0;
    while i < n
        invariant
            i <= n,
            n == freq@.len(),
            over == exists|j: int| 0 <= j < i && #[trigger] freq@[j] > k,
        decreases n - i,
    {
        if freq[i] > k {
            over = true;
        }
        i += 1;
    }
    if over {
        *freq = zeros(n);
    }
}

/// `v` is one of the least-used vertices.
pub open spec fn is_least_used(freq: Seq<usize>, v: int) -> bool {
    &&& 0 <= v < freq.len()
    &&& forall|w: int| 0 <= w < freq.len() ==> freq[v] <= #[trigger] freq[w]
}

/// The vertices whose counter is least, ascending.
pub fn least_used(freq: &Vec<usize>) -> (r: Vec<usize>)
    ensures
        forall|k: int| 0 <= k < r@.len() ==> is_least_used(freq@, #[trigger] r@[k] as int),
        forall|k: int, l: int| 0 <= k < l < r@.len() ==> r@[k] < r@[l],
        forall|v: int| #[trigger] is_least_used(freq@, v) ==> r@.contains(v as usize),
        freq@.len() > 0 ==> r@.len() > 0,
{
    let n = freq.len();
    let mut low: usize = usize::MAX;
    let mut i: usize = 0;
    while i < n
        invariant
            i <= n,
            n == freq@.len(),
            forall|w: int| 0 <= w < i ==> low <= #[trigger] freq@[w],
            i == 0 ==> low == usize::MAX,
            i > 0 ==> exists|w: int| 0 <= w < i && #[trigger] freq@[w] == low,
        decreases n - i,
    {
        if freq[i] < low {
            low = freq[i];
        } else if i == 0 {
            assert(freq@[0] == low);
        } else {
            let ghost w = choose|w: int| 0 <= w < i && #[trigger] freq@[w] == low;
            assert(0 <= w < i + 1 && freq@[w] == low);
        }
        i += 1;
    }
    let mut out: Vec<usize> = Vec::new();
    let mut v: usize = 0;
    while v < n
        invariant
            v <= n,
            n == freq@.len(),
            forall|w: int| 0 <= w < n ==> low <= #[trigger] freq@[w],
            forall|k: int| 0 <= k < out@.len()
                ==> #[trigger] out@[k] < v && freq@[out@[k] as int] == low,
            forall|k: int, l: int| 0 <= k < l < out@.len() ==> out@[k] < out@[l],
            forall|w: int| 0 <= w < v && #[trigger] freq@[w] == low ==> out@.contains(w as usize),
        decreases n - v,
    {
        if freq[v] == low {
            let ghost before = out@;
            out.push(v);
            proof {
                assert(out@[before.len() as int] == v);
                assert forall|w: int| 0 <= w < v + 1 && #[trigger] freq@[w] == low
                    implies out@.contains(w as usize) by {
                    if w < v {
                        let k = choose|k: int| 0 <= k < before.len() && before[k] == w as usize;
                        assert(out@[k] == before[k]);
                    }
                }
            }
        }
        v += 1;
    }
    proof {
        if n > 0 {
            let w = choose|w: int| 0 <= w < n && #[trigger] freq@[w] == low;
            assert(out@.contains(w as usize));
        }
        assert forall|x: int| #[trigger] is_least_used(freq@, x)
            implies out@.contains(x as usize) by {
            if n > 0 {
                let w = choose|w: int| 0 <= w < n && #[trigger] freq@[w] == low;
                assert(freq@[x] <= freq@[w]);
                assert(freq@[x] == low);
            }
        }
    }
    out
}

} // verus!
