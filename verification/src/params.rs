//! Parameter bundle for the search.

use crate::ratio::Ratio;
use crate::tabu::{max_tenure, tenure_cap};
use vstd::prelude::*;

verus! {

/// Why a search was refused before it began.
#[derive(Clone, Copy, Debug, PartialEq, Eq, Structural)]
pub enum InvalidArgument {
    /// The target density is not in `(0, 1]`, or the heavy probability not in `[0, 1]`.
    Parameters,
    /// The subset size is 0 or exceeds the number of vertices.
    Size,
    /// The graph has fewer than two vertices.
    Graph,
    /// The step budget leaves no room for the iteration counter to run past
    /// it by a tenure.
    Budget,
}

/// The tunable parameters of the search.
#[derive(Clone, Copy, Debug)]
pub struct Params {
    /// Initial tenure of the re-addition ban; the adaptive update overrides it.
    pub tenure_u: usize,
    /// Initial tenure of the removal ban; the adaptive update overrides it.
    pub tenure_v: usize,
    /// Probability of the heavy perturbation when the search stagnates.
    /// `None` computes it from the current edge deficit.
    pub heavy_prob: Option<Ratio>,
    /// Target density of a quasi-clique.
    pub gamma_target: Ratio,
    /// Number of consecutive non-improving steps after which the search diversifies.
    pub stagnation_iter: usize,
    /// Cap on the total number of steps.
    pub max_iter: usize,
}

impl Default for Params {
    fn default() -> (p: Self)
        ensures
            p.tenure_u == 7,
            p.tenure_v == 7,
            p.heavy_prob is None,
            p.gamma_target == (Ratio { num: 9, den: 10 }),
            p.stagnation_iter == 1000,
            p.max_iter == 100_000_000,
            p.wf(),
    {
        Params {
            tenure_u: 7,
            tenure_v: 7,
            heavy_prob: None,
            gamma_target: Ratio { num: 9, den: 10 },
            stagnation_iter: 1000,
            max_iter: 100_000_000,
        }
    }
}

impl Params {
    /// The target density lies in `(0, 1]`, and the heavy probability, where
    /// one is given, in `[0, 1]`.
    pub open spec fn wf(&self) -> bool {
        &&& self.gamma_target.in_unit()
        &&& self.heavy_prob matches Some(h) ==> h.is_probability()
    }

    /// The step budget plus the largest tenure for `k` vertices fits a machine word.
    pub open spec fn budget_fits(&self, k: nat) -> bool {
        self.max_iter + max_tenure(k) <= usize::MAX
    }

    /// What stands against a fixed-k search for `k` of `n` vertices, if anything.
    pub open spec fn fixed_k_verdict(&self, n: nat, k: nat) -> Result<(), InvalidArgument> {
        if !self.wf() {
            Err(InvalidArgument::Parameters)
        } else if k < 1 || k > n {
            Err(InvalidArgument::Size)
        } else if !self.budget_fits(k) {
            Err(InvalidArgument::Budget)
        } else {
            Ok(())
        }
    }

    /// What stands against a max-k search on `n` vertices, if anything.
    pub open spec fn maxk_verdict(&self, n: nat) -> Result<(), InvalidArgument> {
        if !self.wf() {
            Err(InvalidArgument::Parameters)
        } else if n < 2 {
            Err(InvalidArgument::Graph)
        } else if !self.budget_fits(n) {
            Err(InvalidArgument::Budget)
        } else {
            Ok(())
        }
    }

    /// Checks the arguments of a fixed-k search for `k` of `n` vertices.
    pub fn check_fixed_k(&self, n: usize, k: usize) -> (r: Result<(), InvalidArgument>)
        ensures
            r == self.fixed_k_verdict(n as nat, k as nat),
    {
        if !self.is_valid() {
            Err(InvalidArgument::Parameters)
        } else if k < 1 || k > n {
            Err(InvalidArgument::Size)
        } else if self.max_iter > usize::MAX - tenure_cap(k) {
            Err(InvalidArgument::Budget)
        } else {
            Ok(())
        }
    }

    /// Checks the arguments of a max-k search on `n` vertices.
    pub fn check_maxk(&self, n: usize) -> (r: Result<(), InvalidArgument>)
        ensures
            r == self.maxk_verdict(n as nat),
    {
        if !self.is_valid() {
            Err(InvalidArgument::Parameters)
        } else if n < 2 {
            Err(InvalidArgument::Graph)
        } else if self.max_iter > usize::MAX - tenure_cap(n) {
            Err(InvalidArgument::Budget)
        } else {
            Ok(())
        }
    }

    /// Whether the parameters are well formed.
    pub fn is_valid(&self) -> (r: bool)
        ensures
            r == self.wf(),
    {
        let heavy_ok = match self.heavy_prob {
            Some(h) => h.den > 0 && h.num <= h.den,
            None => true,
        };
        self.gamma_target.is_in_unit() && heavy_ok
    }
}

} // verus!
