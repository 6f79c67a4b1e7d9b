//! Genetic algorithm for the knapsack problem: fitness-proportionate
//! ("roulette") selection over the plain total value, single-point
//! crossover, independent per-position mutation, and a fixed number of
//! generations; the result is the best individual of the final
//! population.

use vstd::prelude::*;

use crate::knapsack::lemma_totals_bound;
use crate::knapsack::wf_items;
use crate::knapsack::ByTotalValue;
use crate::knapsack::EvaluationMethod;
use crate::knapsack::Item;
use crate::knapsack::Solution;
use crate::knapsack::MAX_TOTAL;
use crate::order::Direction;
use crate::rng::lemma_weight_sum_bound;
use crate::rng::lemma_weight_sum_pos;
use crate::rng::rand_below;
use crate::rng::weighted_pick;

verus! {

/// Largest population size a well-formed parameter set may ask for.
pub const MAX_POPULATION: usize = 0x100000;

/// Driver parameters; the mutation chance is the fraction
/// `mutation_num / mutation_den`.
#[derive(Clone, Copy, Debug)]
pub struct GAParams {
    pub population_size: usize,
    pub generations: usize,
    pub mutation_num: u64,
    pub mutation_den: u64,
}

impl GAParams {
    /// Crossover needs two parents, so the population holds at least two.
    pub open spec fn wf(&self) -> bool {
        &&& 2 <= self.population_size <= MAX_POPULATION
        &&& 1 <= self.mutation_den
    }
}

/// Why a run is abandoned.
#[derive(Clone, Copy, Debug, PartialEq, Eq, Structural)]
pub enum GaError {
    /// Roulette selection is degenerate: every candidate has weight zero.
    AllWeightsZero,
}

/// Every member is a well-formed candidate under the given policy.
pub open spec fn spec_pop_wf(
    pop: Seq<Solution<ByTotalValue>>,
    knapsack: Seq<Item>,
    params: ByTotalValue,
) -> bool {
    forall|k: int|
        0 <= k < pop.len() ==> (#[trigger] pop[k]).wf(knapsack) && pop[k].eval_method == params
}

/// Under the total-value policy a candidate's value is its plain total,
/// so it is nonnegative and bounded.
pub proof fn lemma_btv_value_bounds(knapsack: Seq<Item>, s: &Solution<ByTotalValue>)
    requires
        s.wf(knapsack),
    ensures
        0 <= s.value <= MAX_TOTAL,
{
    lemma_totals_bound(knapsack, s.items@, knapsack.len() as int);
}

/// `population_size` uniformly random candidates.
pub fn initialize_population(knapsack: &Vec<Item>, params: ByTotalValue, size: usize) -> (r: Vec<
    Solution<ByTotalValue>,
>)
    requires
        wf_items(knapsack@),
        params.wf(),
    ensures
        r.len() == size,
        spec_pop_wf(r@, knapsack@, params),
{
    let mut r: Vec<Solution<ByTotalValue>> = Vec::new();
    let mut i: usize = 0;
    while i < size
        invariant
            i <= size,
            r.len() == i,
            wf_items(knapsack@),
            params.wf(),
            spec_pop_wf(r@, knapsack@, params),
        decreases size - i,
    {
        let s = Solution::random(knapsack, params);
        r.push(s);
        i = i + 1;
    }
    r
}

/// Whether any member has positive selection weight.
pub fn has_positive(population: &Vec<Solution<ByTotalValue>>) -> (r: bool)
    ensures
        r == exists|i: int|
            0 <= i < population@.len() && (#[trigger] population@[i]).value > 0,
{
    let mut i: usize = 0;
    while i < population.len()
        invariant
            i <= population.len(),
            forall|k: int| 0 <= k < i ==> (#[trigger] population@[k]).value <= 0,
        decreases population.len() - i,
    {
        if population[i].value > 0 {
            return true;
        }
        i = i + 1;
    }
    false
}

/// Roulette selection: draws a member with probability proportional to
/// its value and returns its index; only positive-weight members can be
/// drawn.
pub fn selection(
    population: &Vec<Solution<ByTotalValue>>,
    knapsack: &Vec<Item>,
    params: ByTotalValue,
) -> (r: usize)
    requires
        spec_pop_wf(population@, knapsack@, params),
        1 <= population.len() <= MAX_POPULATION,
        exists|i: int| 0 <= i < population@.len() && (#[trigger] population@[i]).value > 0,
    ensures
        r < population.len(),
        population@[r as int].value > 0,
{
    let mut weights: Vec<u64> = Vec::new();
    let mut i: usize = 0;
    while i < population.len()
        invariant
            i <= population.len(),
            weights.len() == i,
            spec_pop_wf(population@, knapsack@, params),
            forall|k: int|
                0 <= k < i ==> #[trigger] weights@[k] as int == population@[k].value as int
                    && weights@[k] <= MAX_TOTAL,
        decreases population.len() - i,
    {
        proof {
            lemma_btv_value_bounds(knapsack@, &population@[i as int]);
        }
        let v = population[i].value;
        weights.push(v as u64);
        i = i + 1;
    }
    proof {
        lemma_weight_sum_bound(weights@, MAX_TOTAL as int);
        assert((weights@.len() as int) * (MAX_TOTAL as int) <= (MAX_POPULATION as int) * (
        MAX_TOTAL as int)) by (nonlinear_arith)
            requires
                0 <= (weights@.len() as int) <= MAX_POPULATION,
        ;
        let wit = choose|i: int|
            0 <= i < population@.len() && (#[trigger] population@[i]).value > 0;
        lemma_weight_sum_pos(weights@, wit);
    }
    let idx = weighted_pick(&weights);
    idx
}

/// The single-point child: parent 1's bits before the cut, parent 2's
/// from the cut onward.
pub open spec fn spec_single_point_child(
    b1: Seq<bool>,
    b2: Seq<bool>,
    child: Seq<bool>,
    cut: int,
) -> bool {
    forall|j: int|
        0 <= j < child.len() ==> #[trigger] child[j] == (if j < cut {
            b1[j]
        } else {
            b2[j]
        })
}

/// Single-point crossover: the cut point is drawn uniformly over the
/// encoding length.
pub fn crossover(
    parent1: &Solution<ByTotalValue>,
    parent2: &Solution<ByTotalValue>,
    knapsack: &Vec<Item>,
) -> (r: Solution<ByTotalValue>)
    requires
        parent1.wf(knapsack@),
        parent2.wf(knapsack@),
        parent1.eval_method == parent2.eval_method,
        knapsack.len() >= 1,
    ensures
        r.wf(knapsack@),
        r.eval_method == parent1.eval_method,
        exists|cut: int|
            0 <= cut < knapsack@.len() && spec_single_point_child(
                parent1.items@,
                parent2.items@,
                r.items@,
                cut,
            ),
{
    let n = knapsack.len();
    let cut = rand_below(n as u64) as usize;
    let mut bits: Vec<bool> = Vec::new();
    let mut j: usize = 0;
    while j < n
        invariant
            j <= n,
            cut < n,
            bits.len() == j,
            n == knapsack@.len(),
            parent1.items@.len() == n,
            parent2.items@.len() == n,
            forall|k: int|
                0 <= k < j ==> #[trigger] bits@[k] == (if k < cut {
                    parent1.items@[k]
                } else {
                    parent2.items@[k]
                }),
        decreases n - j,
    {
        let b = if j < cut {
            parent1.items[j]
        } else {
            parent2.items[j]
        };
        bits.push(b);
        j = j + 1;
    }
    let r = Solution::new(knapsack, bits, parent1.eval_method);
    proof {
        assert(spec_single_point_child(parent1.items@, parent2.items@, r.items@, cut as int));
    }
    r
}

/// Independent per-position mutation: each bit flips with probability
/// `mutation_num / mutation_den`, and the candidate is re-evaluated on
/// every flip.
pub fn mutate(
    solution: &mut Solution<ByTotalValue>,
    knapsack: &Vec<Item>,
    mutation_num: u64,
    mutation_den: u64,
)
    requires
        old(solution).wf(knapsack@),
        mutation_den >= 1,
    ensures
        final(solution).wf(knapsack@),
        final(solution).eval_method == old(solution).eval_method,
{
    let n = knapsack.len();
    let mut i: usize = 0;
    while i < n
        invariant
            i <= n,
            n == knapsack@.len(),
            mutation_den >= 1,
            solution.wf(knapsack@),
            solution.eval_method == old(solution).eval_method,
        decreases n - i,
    {
        if rand_below(mutation_den) < mutation_num {
            let flipped = solution.flip(knapsack, i);
            *solution = flipped;
        }
        i = i + 1;
    }
}

/// The whole genetic run.  The result is a well-formed candidate of the
/// final population; the run is abandoned only when some generation's
/// selection weights are all zero, which would make roulette sampling
/// degenerate — with no generations to breed, it always succeeds.
pub fn run(knapsack: &Vec<Item>, params: ByTotalValue, ga_params: GAParams) -> (r: Result<
    Solution<ByTotalValue>,
    GaError,
>)
    requires
        wf_items(knapsack@),
        params.wf(),
        ga_params.wf(),
        knapsack.len() >= 1,
    ensures
        (r matches Ok(s) ==> s.wf(knapsack@) && s.eval_method == params && s.value >= 0),
        ga_params.generations == 0 ==> r is Ok,
{
    let size = ga_params.population_size;
    let mut population = initialize_population(knapsack, params, size);
    let mut generation: usize = 0;
    while generation < ga_params.generations
        invariant
            generation <= ga_params.generations,
            wf_items(knapsack@),
            params.wf(),
            ga_params.wf(),
            knapsack.len() >= 1,
            size == ga_params.population_size,
            population.len() == size,
            spec_pop_wf(population@, knapsack@, params),
        decreases ga_params.generations - generation,
    {
        let mut new_population: Vec<Solution<ByTotalValue>> = Vec::new();
        while new_population.len() < size
            invariant
                new_population.len() <= size,
                generation < ga_params.generations,
                wf_items(knapsack@),
                params.wf(),
                ga_params.wf(),
                knapsack.len() >= 1,
                size == ga_params.population_size,
                population.len() == size,
                spec_pop_wf(population@, knapsack@, params),
                spec_pop_wf(new_population@, knapsack@, params),
            decreases size - new_population.len(),
        {
            if !has_positive(&population) {
                return Err(GaError::AllWeightsZero);
            }
            let i1 = selection(&population, knapsack, params);
            let i2 = selection(&population, knapsack, params);
            let mut offspring = crossover(&population[i1], &population[i2], knapsack);
            mutate(&mut offspring, knapsack, ga_params.mutation_num, ga_params.mutation_den);
            new_population.push(offspring);
        }
        population = new_population;
        generation = generation + 1;
    }
    let best = best_of(&population);
    proof {
        lemma_btv_value_bounds(knapsack@, &population@[best as int]);
    }
    let winner = population[best].clone();
    Ok(winner)
}

/// The index of the best individual by value order, the earliest among
/// ties.
pub fn best_of(population: &Vec<Solution<ByTotalValue>>) -> (r: usize)
    requires
        population.len() >= 1,
    ensures
        r < population.len(),
        forall|k: int|
            0 <= k < population@.len() ==> (#[trigger] population@[k]).value
                <= population@[r as int].value,
        forall|k: int|
            0 <= k < r as int ==> (#[trigger] population@[k]).value < population@[r as int].value,
{
    let mut best: usize = 0;
    let mut i: usize = 1;
    while i < population.len()
        invariant
            1 <= i <= population.len(),
            best < i,
            population.len() >= 1,
            forall|k: int|
                0 <= k < i ==> (#[trigger] population@[k]).value <= population@[best as int].value,
            forall|k: int|
                0 <= k < best as int ==> (#[trigger] population@[k]).value < population@[best as int].value,
        decreases population.len() - i,
    {
        let dir = Direction::Maximize;
        if dir.better(population[i].value, population[best].value) {
            best = i;
        }
        i = i + 1;
    }
    best
}

} // verus!
