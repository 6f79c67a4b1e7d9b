//! Simulated annealing for the traveling salesman problem: start from the
//! sequential tour, try random pair swaps at each temperature level,
//! accept improvements always and worsenings with the Metropolis
//! probability, cool until the temperature crosses `epsilon`, and return
//! the best tour ever seen.

use vstd::prelude::*;

use crate::anneal::metropolis_accept;
use crate::anneal::Cooling;
use crate::anneal::MAX_TEMP;
use crate::graph::Graph;
use crate::graph::Node;
use crate::order::Direction;
use crate::tsp::lemma_tour_value_bounds;
use crate::tsp::spec_complete;
use crate::tsp::spec_tour_value;
use crate::tsp::Solution;

verus! {

/// Driver parameters, on the same integer temperature scale as the
/// knapsack annealer.
#[derive(Clone, Copy, Debug)]
pub struct Params {
    pub i_max: usize,
    pub epsilon: u64,
    pub alpha: Cooling,
    pub temp0: u64,
}

impl Params {
    pub open spec fn wf(&self) -> bool {
        self.alpha.wf() && self.temp0 <= MAX_TEMP
    }
}

/// The driver's working state: the current tour, possibly worsened, and
/// the incumbent best, tracked separately.
pub struct SaState {
    pub s: Solution,
    pub s_best: Solution,
}

impl SaState {
    pub open spec fn wf<G: Graph>(&self, g: &G) -> bool {
        &&& self.s.wf(g)
        &&& self.s_best.wf(g)
    }
}

/// One random-swap trial at a fixed temperature: a strictly improving
/// neighbour is taken and may advance the incumbent; a worsening one is
/// taken with the Metropolis probability.  Whatever the draws, the
/// working tour stays put or becomes a single-swap neighbour, and the
/// incumbent becomes the better of the old incumbent and the new working
/// tour — so it never worsens.
pub fn sa_trial<G: Graph>(g: &G, state: &mut SaState, temp: u64)
    requires
        old(state).wf(g),
        old(state).s_best.value <= old(state).s.value,
        spec_complete(g),
        g.spec_node_count() >= 2,
        temp <= MAX_TEMP,
    ensures
        final(state).wf(g),
        final(state).s_best.value <= old(state).s_best.value,
        final(state).s_best.value <= final(state).s.value,
        final(state).s.nodes@ == old(state).s.nodes@ || exists|a: int, b: int|
            0 <= a < old(state).s.nodes@.len() && 0 <= b < old(state).s.nodes@.len() && a != b
                && final(state).s.nodes@ == old(state).s.nodes@.update(
                a,
                old(state).s.nodes@[b],
            ).update(b, old(state).s.nodes@[a]),
        final(state).s_best.value == (if final(state).s.value < old(state).s_best.value {
            final(state).s.value
        } else {
            old(state).s_best.value
        }),
        final(state).s_best.nodes@ == (if final(state).s.value < old(state).s_best.value {
            final(state).s.nodes@
        } else {
            old(state).s_best.nodes@
        }),
{
    let s_prime = state.s.random_neighbour(g);
    let dir = Direction::Minimize;
    if dir.better(s_prime.value, state.s.value) {
        state.s = s_prime;
        if dir.better(state.s.value, state.s_best.value) {
            state.s_best = state.s.clone();
        }
    } else {
        proof {
            lemma_tour_value_bounds(g, state.s.nodes@);
            lemma_tour_value_bounds(g, s_prime.nodes@);
        }
        let delta = s_prime.value - state.s.value;
        if metropolis_accept(delta, temp) {
            state.s = s_prime;
        }
    }
}

/// The whole annealing run.  The result is a well-formed tour no longer
/// than the sequential starting tour.
pub fn run<G: Graph>(g: &G, params: &Params) -> (r: Solution)
    requires
        g.wf(),
        spec_complete(g),
        g.spec_node_count() >= 2,
        params.wf(),
    ensures
        r.wf(g),
        r.value as int <= spec_tour_value(
            g,
            Seq::new(g.spec_node_count() as nat, |k: int| k as Node),
        ),
{
    let s = Solution::sequential(g);
    proof {
        assert(s.nodes@ =~= Seq::new(g.spec_node_count() as nat, |k: int| k as Node));
    }
    let ghost seq_value = s.value as int;
    let s_best = s.clone();
    let mut state = SaState { s, s_best };
    let mut temp = params.temp0;
    while temp > params.epsilon
        invariant
            g.wf(),
            spec_complete(g),
            g.spec_node_count() >= 2,
            params.wf(),
            temp <= MAX_TEMP,
            state.wf(g),
            state.s_best.value <= state.s.value,
            state.s_best.value as int <= spec_tour_value(
                g,
                Seq::new(g.spec_node_count() as nat, |k: int| k as Node),
            ),
        decreases temp,
    {
        let mut j: usize = 0;
        while j < params.i_max
            invariant
                j <= params.i_max,
                g.wf(),
                spec_complete(g),
                g.spec_node_count() >= 2,
                temp <= MAX_TEMP,
                state.wf(g),
                state.s_best.value <= state.s.value,
                state.s_best.value as int <= spec_tour_value(
                    g,
                    Seq::new(g.spec_node_count() as nat, |k: int| k as Node),
                ),
            decreases params.i_max - j,
        {
            sa_trial(g, &mut state, temp);
            j = j + 1;
        }
        proof {
            params.alpha.lemma_cools(temp as int);
        }
        temp = params.alpha.next(temp);
    }
    state.s_best
}

} // verus!
