//! Simulated annealing for the knapsack problem: start from the greedy
//! construction, try random single-bit flips at each temperature level,
//! accept improvements always and worsenings with the Metropolis
//! probability, cool until the temperature crosses `epsilon`, and return
//! the best candidate ever seen.

use vstd::prelude::*;

use crate::anneal::metropolis_accept;
use crate::anneal::Cooling;
use crate::anneal::MAX_TEMP;
use crate::knapsack::lemma_solution_value_bounds;
use crate::knapsack::spec_eval_of;
use crate::knapsack::spec_greedy_bits;
use crate::knapsack::spec_is_value_order;
use crate::knapsack::wf_items;
use crate::knapsack::EvaluationMethod;
use crate::knapsack::Item;
use crate::knapsack::Solution;
use crate::knapsack::UWeight;
use crate::knapsack::WithPenalty;
use crate::order::Direction;
use crate::rng::rand_below;

verus! {

/// Driver parameters.  The temperature scale is an integer one: `temp0`
/// and `epsilon` are schedule units, and `alpha` is either a proper
/// fraction (multiplicative cooling) or an integer decrement.
#[derive(Clone, Copy, Debug)]
pub struct PParams {
    pub i_max: usize,
    pub epsilon: u64,
    pub alpha: Cooling,
    pub temp0: u64,
    pub penalty: UWeight,
}

impl PParams {
    pub open spec fn wf(&self) -> bool {
        self.alpha.wf() && self.temp0 <= MAX_TEMP
    }
}

/// The driver's working state: the current candidate, possibly worsened,
/// and the incumbent best, tracked separately.
pub struct SaState {
    pub s: Solution<WithPenalty>,
    pub s_best: Solution<WithPenalty>,
}

impl SaState {
    pub open spec fn wf(&self, knapsack: Seq<Item>) -> bool {
        &&& self.s.wf(knapsack)
        &&& self.s_best.wf(knapsack)
        &&& self.s.eval_method == self.s_best.eval_method
    }
}

/// One random-flip trial at a fixed temperature: a strictly improving
/// neighbour is taken and may advance the incumbent; a worsening one is
/// taken with the Metropolis probability.  Whatever the draws, the
/// working candidate stays put or becomes a single-flip neighbour, and
/// the incumbent becomes the better of the old incumbent and the new
/// working candidate — so it never worsens.
pub fn sa_trial(knapsack: &Vec<Item>, state: &mut SaState, temp: u64)
    requires
        old(state).wf(knapsack@),
        old(state).s_best.value >= old(state).s.value,
        knapsack.len() >= 1,
        temp <= MAX_TEMP,
    ensures
        final(state).wf(knapsack@),
        final(state).s_best.value >= old(state).s_best.value,
        final(state).s_best.eval_method == old(state).s_best.eval_method,
        final(state).s.eval_method == old(state).s.eval_method,
        final(state).s_best.value >= final(state).s.value,
        final(state).s.items@ == old(state).s.items@ || exists|i: int|
            0 <= i < knapsack@.len() && final(state).s.items@ == old(state).s.items@.update(
                i,
                !old(state).s.items@[i],
            ),
        final(state).s_best.value == (if final(state).s.value > old(state).s_best.value {
            final(state).s.value
        } else {
            old(state).s_best.value
        }),
        final(state).s_best.items@ == (if final(state).s.value > old(state).s_best.value {
            final(state).s.items@
        } else {
            old(state).s_best.items@
        }),
{
    let random_index = rand_below(knapsack.len() as u64) as usize;
    let s_prime = state.s.flip(knapsack, random_index);
    let dir = Direction::Maximize;
    if dir.better(s_prime.value, state.s.value) {
        state.s = s_prime;
        if dir.better(state.s.value, state.s_best.value) {
            state.s_best = state.s.clone();
        }
    } else {
        proof {
            lemma_solution_value_bounds(knapsack@, &state.s);
            lemma_solution_value_bounds(knapsack@, &s_prime);
        }
        let delta = state.s.value - s_prime.value;
        if metropolis_accept(delta, temp) {
            state.s = s_prime;
        }
    }
}

/// The whole annealing run.  The result is a well-formed candidate whose
/// value is at least the greedy construction's, so in particular at
/// least zero.
pub fn run(knapsack: &Vec<Item>, params: WithPenalty, pparams: PParams) -> (r: Solution<
    WithPenalty,
>)
    requires
        wf_items(knapsack@),
        params.wf(),
        pparams.wf(),
        knapsack.len() >= 1,
    ensures
        r.wf(knapsack@),
        r.eval_method == params,
        r.value >= 0,
        exists|ord: Seq<usize>|
            spec_is_value_order(knapsack@, ord) && r.value as int >= spec_eval_of(
                knapsack@,
                params,
                spec_greedy_bits(knapsack@, params, ord, knapsack@.len() as int),
            ),
{
    let s = Solution::greedy(knapsack, params);
    let ghost ord = choose|ord: Seq<usize>|
        spec_is_value_order(knapsack@, ord) && s.items@ == spec_greedy_bits(
            knapsack@,
            params,
            ord,
            knapsack@.len() as int,
        );
    let s_best = s.clone();
    let mut state = SaState { s, s_best };
    let mut temp = pparams.temp0;
    while temp > pparams.epsilon
        invariant
            wf_items(knapsack@),
            params.wf(),
            pparams.wf(),
            knapsack.len() >= 1,
            temp <= MAX_TEMP,
            state.wf(knapsack@),
            state.s.eval_method == params,
            state.s_best.value >= 0,
            state.s_best.value >= state.s.value,
            spec_is_value_order(knapsack@, ord),
            state.s_best.value as int >= spec_eval_of(
                knapsack@,
                params,
                spec_greedy_bits(knapsack@, params, ord, knapsack@.len() as int),
            ),
        decreases temp,
    {
        let mut j: usize = 0;
        while j < pparams.i_max
            invariant
                j <= pparams.i_max,
                wf_items(knapsack@),
                params.wf(),
                knapsack.len() >= 1,
                temp <= MAX_TEMP,
                state.wf(knapsack@),
                state.s.eval_method == params,
                state.s_best.value >= 0,
                state.s_best.value >= state.s.value,
                spec_is_value_order(knapsack@, ord),
                state.s_best.value as int >= spec_eval_of(
                    knapsack@,
                    params,
                    spec_greedy_bits(knapsack@, params, ord, knapsack@.len() as int),
                ),
            decreases pparams.i_max - j,
        {
            sa_trial(knapsack, &mut state, temp);
            j = j + 1;
        }
        proof {
            pparams.alpha.lemma_cools(temp as int);
        }
        temp = pparams.alpha.next(temp);
    }
    state.s_best
}

} // verus!
