//! Dual tabu lists with adaptive tenures.
//!
//! Two short-term memories are kept: one forbids re-adding a vertex that was
//! removed within the last `tu` iterations, the other forbids removing a
//! vertex that was added within the last `tv` iterations. After every move the
//! tenures are recomputed from the current edge deficit plus a random part.

use crate::memory::zeros;
use crate::ratio::Ratio;
use crate::rng::rand_below;
use crate::solution::{edges_needed, required_edges};
use rand_chacha::ChaCha8Rng;
use vstd::prelude::*;

verus! {

/// The state of the two tabu memories.
pub struct TabuState {
    /// Iteration at which each vertex may be re-added.
    pub expiry_u: Seq<nat>,
    /// Iteration at which each vertex may be removed.
    pub expiry_v: Seq<nat>,
    /// Global iteration counter.
    pub iter: nat,
    /// Current tenure of the re-addition ban.
    pub tu: nat,
    /// Current tenure of the removal ban.
    pub tv: nat,
}

impl TabuState {
    /// Memories for `n` vertices with nothing forbidden; tenures below 1 are raised to 1.
    pub open spec fn fresh(n: nat, tu: nat, tv: nat) -> TabuState {
        TabuState {
            expiry_u: Seq::new(n, |i: int| 0nat),
            expiry_v: Seq::new(n, |i: int| 0nat),
            iter: 0,
            tu: if tu >= 1 { tu } else { 1 },
            tv: if tv >= 1 { tv } else { 1 },
        }
    }

    /// Both memories cover the same vertices and both tenures are positive.
    pub open spec fn wf(self) -> bool {
        &&& self.expiry_u.len() == self.expiry_v.len()
        &&& self.tu >= 1
        &&& self.tv >= 1
    }

    /// Re-adding `v` is forbidden.
    pub open spec fn is_tabu_u(self, v: int) -> bool {
        self.expiry_u[v] > self.iter
    }

    /// Removing `v` is forbidden.
    pub open spec fn is_tabu_v(self, v: int) -> bool {
        self.expiry_v[v] > self.iter
    }

    /// The state one iteration later.
    pub open spec fn step(self) -> TabuState {
        TabuState { iter: self.iter + 1, ..self }
    }

    /// The state after `j` steps.
    pub open spec fn steps(self, j: nat) -> TabuState {
        TabuState { iter: self.iter + j, ..self }
    }

    /// The state after re-adding `v` was forbidden for `tu` iterations.
    pub open spec fn forbid_u(self, v: int) -> TabuState {
        TabuState { expiry_u: self.expiry_u.update(v, self.iter + self.tu), ..self }
    }

    /// The state after removing `v` was forbidden for `tv` iterations.
    pub open spec fn forbid_v(self, v: int) -> TabuState {
        TabuState { expiry_v: self.expiry_v.update(v, self.iter + self.tv), ..self }
    }

    /// The state with all marks cleared; the counter and the tenures stay.
    pub open spec fn reset(self) -> TabuState {
        TabuState {
            expiry_u: Seq::new(self.expiry_u.len(), |i: int| 0nat),
            expiry_v: Seq::new(self.expiry_v.len(), |i: int| 0nat),
            ..self
        }
    }

    /// The state with other tenures.
    pub open spec fn with_tenures(self, tu: nat, tv: nat) -> TabuState {
        TabuState { tu, tv, ..self }
    }
}

/// The edge deficit of a subset against `gamma`, capped at 10.
pub open spec fn deficit_level(size: nat, edges: nat, gamma: Ratio) -> nat {
    let needed = required_edges(gamma, size);
    if needed <= edges {
        0
    } else if needed - edges >= 10 {
        10
    } else {
        (needed - edges) as nat
    }
}

/// C = max(|S| / 40, 6): the random part of `tu` is drawn below it.
pub open spec fn spread_u(size: nat) -> nat {
    if size / 40 >= 6 {
        size / 40
    } else {
        6
    }
}

/// max(floor(0.6 C), 1): the random part of `tv` is drawn below it.
pub open spec fn spread_v(size: nat) -> nat {
    if 3 * spread_u(size) / 5 >= 1 {
        3 * spread_u(size) / 5
    } else {
        1
    }
}

/// `tu = (l + 1) + r`.
pub open spec fn tenure_u_for(level: nat, r: nat) -> nat {
    level + 1 + r
}

/// `tv = floor(0.6 (l + 1)) + r`, and at least 1.
pub open spec fn tenure_v_for(level: nat, r: nat) -> nat {
    if 3 * (level + 1) / 5 + r >= 1 {
        3 * (level + 1) / 5 + r
    } else {
        1
    }
}

/// `after` is `before` with both tenures recomputed for a subset of `size`
/// vertices and `edges` edges, whatever the two random parts were.
pub open spec fn retuned(
    before: TabuState,
    after: TabuState,
    size: nat,
    edges: nat,
    gamma: Ratio,
) -> bool {
    exists|ru: nat, rv: nat|
        ru < spread_u(size) && rv < spread_v(size) && after == #[trigger] before.with_tenures(
            tenure_u_for(deficit_level(size, edges, gamma), ru),
            tenure_v_for(deficit_level(size, edges, gamma), rv),
        )
}

/// No tenure computed for a subset of `size` vertices exceeds this.
pub open spec fn max_tenure(size: nat) -> nat {
    11 + spread_u(size)
}

/// `iter` never decreases: not under `step`, nor under any other operation.
pub proof fn lemma_iter_monotone(t: TabuState, v: int, tu: nat, tv: nat)
    ensures
        t.step().iter >= t.iter,
        t.forbid_u(v).iter == t.iter,
        t.forbid_v(v).iter == t.iter,
        t.reset().iter == t.iter,
        t.with_tenures(tu, tv).iter == t.iter,
{
}

/// After `forbid_u(v)` the vertex `v` is tabu for exactly `tu` further steps:
/// it is tabu after `j` steps if and only if `j < tu`.
pub proof fn lemma_forbid_u_lasts(t: TabuState, v: int, j: nat)
    requires
        0 <= v < t.expiry_u.len(),
    ensures
        t.forbid_u(v).steps(j).is_tabu_u(v) <==> j < t.tu,
{
}

/// After `forbid_v(v)` the vertex `v` is tabu for exactly `tv` further steps.
pub proof fn lemma_forbid_v_lasts(t: TabuState, v: int, j: nat)
    requires
        0 <= v < t.expiry_v.len(),
    ensures
        t.forbid_v(v).steps(j).is_tabu_v(v) <==> j < t.tv,
{
}

/// `steps` is `step`, repeated.
pub proof fn lemma_steps_unfold(t: TabuState, j: nat)
    ensures
        t.steps(0) == t,
        t.steps(j + 1) == t.steps(j).step(),
{
}

/// After `reset` nothing is tabu, and the counter is where it was.
pub proof fn lemma_reset_clears(t: TabuState, v: int)
    requires
        0 <= v < t.expiry_u.len(),
        t.wf(),
    ensures
        !t.reset().is_tabu_u(v),
        !t.reset().is_tabu_v(v),
        t.reset().iter == t.iter,
{
}

/// The bound that no tenure computed for a subset of `size` vertices exceeds.
pub fn tenure_cap(size: usize) -> (r: usize)
    ensures
        r == max_tenure(size as nat),
{
    if size / 40 >= 6 {
        size / 40 + 11
    } else {
        17
    }
}

/// The two tabu memories over the vertices of one graph.
#[derive(Debug)]
pub struct DualTabu {
    expiry_u: Vec<usize>,
    expiry_v: Vec<usize>,
    iter: usize,
    tu: usize,
    tv: usize,
}

impl View for DualTabu {
    type V = TabuState;

    closed spec fn view(&self) -> TabuState {
        TabuState {
            expiry_u: self.expiry_u@.map_values(|x: usize| x as nat),
            expiry_v: self.expiry_v@.map_values(|x: usize| x as nat),
            iter: self.iter as nat,
            tu: self.tu as nat,
            tv: self.tv as nat,
        }
    }
}

impl Clone for DualTabu {
    fn clone(&self) -> (r: Self)
        ensures
            r@ == self@,
    {
        DualTabu {
            expiry_u: self.expiry_u.clone(),
            expiry_v: self.expiry_v.clone(),
            iter: self.iter,
            tu: self.tu,
            tv: self.tv,
        }
    }
}

impl DualTabu {
    /// Fresh memories for `n` vertices; tenures below 1 are raised to 1.
    pub fn new(n: usize, initial_tu: usize, initial_tv: usize) -> (r: Self)
        ensures
            r@ == TabuState::fresh(n as nat, initial_tu as nat, initial_tv as nat),
            r@.wf(),
    {
        let r = DualTabu {
            expiry_u: zeros(n),
            expiry_v: zeros(n),
            iter: 0,
            tu: if initial_tu >= 1 { initial_tu } else { 1 },
            tv: if initial_tv >= 1 { initial_tv } else { 1 },
        };
        assert(r@.expiry_u =~= Seq::new(n as nat, |i: int| 0nat));
        assert(r@.expiry_v =~= Seq::new(n as nat, |i: int| 0nat));
        r
    }

    /// Sets the tenures from the edge deficit of a subset and two random parts.
    pub fn set_tenures(
        &mut self,
        size_s: usize,
        edges: usize,
        gamma: Ratio,
        rand_u: usize,
        rand_v: usize,
    )
        requires
            gamma.is_probability(),
            size_s * size_s <= usize::MAX,
            rand_u < spread_u(size_s as nat),
            rand_v < spread_v(size_s as nat),
        ensures
            final(self)@ == old(self)@.with_tenures(
                tenure_u_for(deficit_level(size_s as nat, edges as nat, gamma), rand_u as nat),
                tenure_v_for(deficit_level(size_s as nat, edges as nat, gamma), rand_v as nat),
            ),
            final(self)@.tu >= 1,
            final(self)@.tv >= 1,
            final(self)@.tu <= max_tenure(size_s as nat),
            final(self)@.tv <= max_tenure(size_s as nat),
    {
        let needed = edges_needed(gamma, size_s);
        let deficit: usize = if needed > edges { needed - edges } else { 0 };
        let l: usize = if deficit < 10 { deficit } else { 10 };
        let base_v: usize = 3 * (l + 1) / 5;
        self.tu = l + 1 + rand_u;
        self.tv = if base_v + rand_v >= 1 { base_v + rand_v } else { 1 };
    }

    /// The two bounds below which the random parts of the tenures are drawn.
    pub fn spreads(size_s: usize) -> (r: (usize, usize))
        ensures
            r.0 == spread_u(size_s as nat),
            r.1 == spread_v(size_s as nat),
            r.0 >= 1,
            r.1 >= 1,
    {
        let c: usize = if size_s / 40 >= 6 { size_s / 40 } else { 6 };
        let c6: usize = if 3 * c / 5 >= 1 { 3 * c / 5 } else { 1 };
        (c, c6)
    }

    /// Recomputes both tenures from the size and edge count of the current
    /// subset and the target density, with fresh random parts.
    pub fn update_tenures(
        &mut self,
        size_s: usize,
        edges: usize,
        gamma: Ratio,
        rng: &mut ChaCha8Rng,
    )
        requires
            gamma.is_probability(),
            size_s * size_s <= usize::MAX,
        ensures
            retuned(old(self)@, final(self)@, size_s as nat, edges as nat, gamma),
            final(self)@.tu >= 1,
            final(self)@.tv >= 1,
            final(self)@.tu <= max_tenure(size_s as nat),
            final(self)@.tv <= max_tenure(size_s as nat),
    {
        let (c, c6) = Self::spreads(size_s);
        let rand_u = rand_below(rng, c);
        let rand_v = rand_below(rng, c6);
        self.set_tenures(size_s, edges, gamma, rand_u, rand_v);
    }

    /// Advances the iteration counter by one.
    pub fn step(&mut self)
        requires
            old(self)@.iter < usize::MAX,
        ensures
            final(self)@ == old(self)@.step(),
    {
        self.iter += 1;
    }

    /// Whether re-adding `v` is forbidden: `expiry_u[v] > iter`.
    pub fn is_tabu_u(&self, v: usize) -> (r: bool)
        requires
            v < self@.expiry_u.len(),
        ensures
            r == self@.is_tabu_u(v as int),
    {
        self.expiry_u[v] > self.iter
    }

    /// Whether removing `v` is forbidden: `expiry_v[v] > iter`.
    pub fn is_tabu_v(&self, v: usize) -> (r: bool)
        requires
            v < self@.expiry_v.len(),
        ensures
            r == self@.is_tabu_v(v as int),
    {
        self.expiry_v[v] > self.iter
    }

    /// Forbids re-adding `v` for the next `tu` iterations.
    pub fn forbid_u(&mut self, v: usize)
        requires
            v < old(self)@.expiry_u.len(),
            old(self)@.iter + old(self)@.tu <= usize::MAX,
        ensures
            final(self)@ == old(self)@.forbid_u(v as int),
    {
        self.expiry_u[v] = self.iter + self.tu;
        assert(self@.expiry_u =~= old(self)@.expiry_u.update(v as int, (self.iter + self.tu) as nat));
    }

    /// Forbids removing `v` for the next `tv` iterations.
    pub fn forbid_v(&mut self, v: usize)
        requires
            v < old(self)@.expiry_v.len(),
            old(self)@.iter + old(self)@.tv <= usize::MAX,
        ensures
            final(self)@ == old(self)@.forbid_v(v as int),
    {
        self.expiry_v[v] = self.iter + self.tv;
        assert(self@.expiry_v =~= old(self)@.expiry_v.update(v as int, (self.iter + self.tv) as nat));
    }

    /// Clears all tabu marks; the counter and the tenures stay.
    pub fn reset(&mut self)
        ensures
            final(self)@ == old(self)@.reset(),
    {
        let n = self.expiry_u.len();
        let m = self.expiry_v.len();
        self.expiry_u = zeros(n);
        self.expiry_v = zeros(m);
        assert(self@.expiry_u =~= Seq::new(n as nat, |i: int| 0nat));
        assert(self@.expiry_v =~= Seq::new(m as nat, |i: int| 0nat));
    }
}

} // verus!
