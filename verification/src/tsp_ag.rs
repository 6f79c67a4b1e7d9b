//! Genetic algorithm for the traveling salesman problem: roulette
//! selection with reciprocal weights (shorter tours draw larger weights),
//! order crossover that always yields a valid permutation, random-swap
//! mutation, and a fixed number of generations; the result is the best
//! tour of the final population.

use vstd::prelude::*;

use crate::graph::Graph;
use crate::graph::Node;
use crate::ksp_ag::MAX_POPULATION;
use crate::order::Direction;
use crate::rng::lemma_weight_sum_bound;
use crate::rng::lemma_weight_sum_pos;
use crate::rng::rand_below;
use crate::rng::weighted_pick;
use crate::tsp::lemma_covering_perm;
use crate::tsp::lemma_perm_bijective;
use crate::tsp::lemma_tour_value_bounds;
use crate::tsp::spec_complete;
use crate::tsp::spec_hits;
use crate::tsp::Solution;

verus! {

/// Scale for the reciprocal selection weights: a tour of value `v` draws
/// weight `INV_SCALE / v`, floored, and at least one.
pub const INV_SCALE: u64 = 0x10000000000;

/// Driver parameters; the mutation chance is the fraction
/// `mutation_num / mutation_den`.
#[derive(Clone, Copy, Debug)]
pub struct GAParams {
    pub population_size: usize,
    pub generations: usize,
    pub mutation_num: u64,
    pub mutation_den: u64,
}

impl GAParams {
    pub open spec fn wf(&self) -> bool {
        &&& 2 <= self.population_size <= MAX_POPULATION
        &&& 1 <= self.mutation_den
    }
}

/// Every member is a well-formed tour over the given graph.
pub open spec fn spec_pop_wf<G: Graph>(pop: Seq<Solution>, g: &G) -> bool {
    forall|k: int| 0 <= k < pop.len() ==> (#[trigger] pop[k]).wf(g)
}

/// `population_size` uniformly random tours.
pub fn initialize_population<G: Graph>(graph: &G, size: usize) -> (r: Vec<Solution>)
    requires
        graph.wf(),
        spec_complete(graph),
        2 <= graph.spec_node_count(),
    ensures
        r.len() == size,
        spec_pop_wf(r@, graph),
{
    let mut r: Vec<Solution> = Vec::new();
    let mut i: usize = 0;
    while i < size
        invariant
            i <= size,
            r.len() == i,
            graph.wf(),
            spec_complete(graph),
            2 <= graph.spec_node_count(),
            spec_pop_wf(r@, graph),
        decreases size - i,
    {
        let s = Solution::random(graph);
        r.push(s);
        i = i + 1;
    }
    r
}

/// Roulette selection with inverted weights: sampling is proportionate
/// to `INV_SCALE / value`, floored and clamped to at least one, since
/// for a minimization problem the higher weight must go to the lower
/// value.
pub fn selection<G: Graph>(population: &Vec<Solution>, g: &G) -> (r: usize)
    requires
        spec_pop_wf(population@, g),
        g.wf(),
        1 <= population.len() <= MAX_POPULATION,
    ensures
        r < population.len(),
{
    let mut weights: Vec<u64> = Vec::new();
    let mut i: usize = 0;
    while i < population.len()
        invariant
            i <= population.len(),
            weights.len() == i,
            spec_pop_wf(population@, g),
            g.wf(),
            forall|k: int| 0 <= k < i ==> 1 <= #[trigger] weights@[k] <= INV_SCALE,
        decreases population.len() - i,
    {
        let v = population[i].value;
        let w: u64 = if v <= 0 {
            1
        } else {
            proof {
                lemma_tour_value_bounds(g, population@[i as int].nodes@);
                vstd::arithmetic::div_mod::lemma_div_nonincreasing(
                    INV_SCALE as int,
                    v as int,
                );
                vstd::arithmetic::div_mod::lemma_div_pos_is_pos(INV_SCALE as int, v as int);
            }
            let q = INV_SCALE / (v as u64);
            if q == 0 {
                1
            } else {
                q
            }
        };
        weights.push(w);
        i = i + 1;
    }
    proof {
        lemma_weight_sum_bound(weights@, INV_SCALE as int);
        assert((weights@.len() as int) * (INV_SCALE as int) <= (MAX_POPULATION as int) * (
        INV_SCALE as int)) by (nonlinear_arith)
            requires
                0 <= (weights@.len() as int) <= MAX_POPULATION,
        ;
        lemma_weight_sum_pos(weights@, 0);
    }
    let idx = weighted_pick(&weights);
    idx
}

/// The appended part of an order-crossover child after scanning the
/// first `j` entries of parent 2: those not already in parent 1's
/// prefix, in parent 2's order.
pub open spec fn spec_ox_rest(s1: Seq<Node>, s2: Seq<Node>, point: int, j: int) -> Seq<Node>
    decreases j,
{
    if j <= 0 {
        Seq::empty()
    } else {
        let prev = spec_ox_rest(s1, s2, point, j - 1);
        if s1.take(point).contains(s2[j - 1]) {
            prev
        } else {
            prev.push(s2[j - 1])
        }
    }
}

/// The order-crossover child: parent 1's prefix up to `point`, then
/// parent 2's remaining nodes in parent 2's order.
pub open spec fn spec_order_crossover(s1: Seq<Node>, s2: Seq<Node>, point: int) -> Seq<Node> {
    s1.take(point) + spec_ox_rest(s1, s2, point, s2.len() as int)
}

/// `x` occurs among the first `j` entries of `s`.
pub open spec fn spec_among(s: Seq<Node>, j: int, x: Node) -> bool {
    exists|jj: int| 0 <= jj < j && s[jj] == x
}

/// What the appended part holds: entries drawn from the scanned part of
/// parent 2 and missing from the prefix, every such entry exactly once.
pub proof fn lemma_ox_rest_props(s1: Seq<Node>, s2: Seq<Node>, point: int, j: int)
    requires
        0 <= j <= s2.len(),
    ensures
        forall|k: int|
            0 <= k < spec_ox_rest(s1, s2, point, j).len() ==> spec_among(
                s2,
                j,
                #[trigger] spec_ox_rest(s1, s2, point, j)[k],
            ) && !s1.take(point).contains(spec_ox_rest(s1, s2, point, j)[k]),
        forall|jj: int|
            0 <= jj < j && !s1.take(point).contains(#[trigger] s2[jj]) ==> spec_ox_rest(
                s1,
                s2,
                point,
                j,
            ).contains(s2[jj]),
        s2.no_duplicates() ==> spec_ox_rest(s1, s2, point, j).no_duplicates(),
    decreases j,
{
    if j > 0 {
        lemma_ox_rest_props(s1, s2, point, j - 1);
        let prev = spec_ox_rest(s1, s2, point, j - 1);
        let rest = spec_ox_rest(s1, s2, point, j);
        assert forall|k: int| 0 <= k < rest.len() implies spec_among(s2, j, #[trigger] rest[k])
            && !s1.take(point).contains(rest[k]) by {
            if k < prev.len() {
                assert(rest[k] == prev[k]);
                let jj = choose|jj: int| 0 <= jj < j - 1 && s2[jj] == prev[k];
                assert(0 <= jj < j && s2[jj] == rest[k]);
            } else {
                assert(rest[k] == s2[j - 1]);
                assert(0 <= j - 1 < j && s2[j - 1] == rest[k]);
            }
        }
        assert forall|jj: int|
            0 <= jj < j && !s1.take(point).contains(#[trigger] s2[jj]) implies rest.contains(
            s2[jj],
        ) by {
            if jj < j - 1 {
                let k = choose|k: int| 0 <= k < prev.len() && prev[k] == s2[jj];
                assert(rest[k] == s2[jj]);
            } else {
                assert(rest[rest.len() - 1] == s2[j - 1]);
            }
        }
        if s2.no_duplicates() {
            if !s1.take(point).contains(s2[j - 1]) {
                assert forall|i1: int, i2: int|
                    0 <= i1 < rest.len() && 0 <= i2 < rest.len() && i1 != i2 implies rest[i1]
                    != rest[i2] by {
                    if i1 < prev.len() && i2 < prev.len() {
                        assert(rest[i1] == prev[i1] && rest[i2] == prev[i2]);
                    } else if i1 < prev.len() {
                        assert(rest[i1] == prev[i1] && rest[i2] == s2[j - 1]);
                        let jj = choose|jj: int| 0 <= jj < j - 1 && s2[jj] == prev[i1];
                        assert(s2[jj] != s2[j - 1]);
                    } else if i2 < prev.len() {
                        assert(rest[i2] == prev[i2] && rest[i1] == s2[j - 1]);
                        let jj = choose|jj: int| 0 <= jj < j - 1 && s2[jj] == prev[i2];
                        assert(s2[jj] != s2[j - 1]);
                    }
                }
            }
        }
    }
}

/// Whether `x` occurs among the first `upto` entries of `v`.
pub fn contains_upto(v: &Vec<Node>, upto: usize, x: Node) -> (r: bool)
    requires
        upto <= v.len(),
    ensures
        r == v@.take(upto as int).contains(x),
{
    let mut i: usize = 0;
    while i < upto
        invariant
            i <= upto,
            upto <= v.len(),
            forall|k: int| 0 <= k < i ==> #[trigger] v@[k] != x,
        decreases upto - i,
    {
        if v[i] == x {
            proof {
                assert(v@.take(upto as int)[i as int] == x);
            }
            return true;
        }
        i = i + 1;
    }
    proof {
        assert forall|k: int| 0 <= k < upto implies #[trigger] v@.take(upto as int)[k] != x by {
            assert(v@.take(upto as int)[k] == v@[k]);
        }
    }
    false
}

/// Order crossover: the child inherits parent 1's prefix up to a
/// uniformly chosen cut, then parent 2's remaining nodes in parent 2's
/// order, skipping nodes already present — always a valid permutation.
pub fn crossover<G: Graph>(parent1: &Solution, parent2: &Solution, g: &G) -> (r: Solution)
    requires
        parent1.wf(g),
        parent2.wf(g),
        spec_complete(g),
        g.spec_node_count() >= 3,
    ensures
        r.wf(g),
        exists|point: int|
            1 <= point <= g.spec_node_count() - 2 && r.nodes@ == spec_order_crossover(
                parent1.nodes@,
                parent2.nodes@,
                point,
            ),
{
    let n = parent1.nodes.len();
    let point = (rand_below((n - 2) as u64) as usize) + 1;
    let ghost s1 = parent1.nodes@;
    let ghost s2 = parent2.nodes@;
    let mut child: Vec<Node> = Vec::new();
    let mut i: usize = 0;
    while i < point
        invariant
            i <= point,
            point < n,
            n == parent1.nodes.len(),
            s1 == parent1.nodes@,
            child@ == s1.take(i as int),
        decreases point - i,
    {
        let x = parent1.nodes[i];
        child.push(x);
        proof {
            assert(child@ =~= s1.take(i + 1));
        }
        i = i + 1;
    }
    let mut j: usize = 0;
    while j < n
        invariant
            j <= n,
            1 <= point < n,
            n == parent1.nodes.len(),
            n == parent2.nodes.len(),
            s1 == parent1.nodes@,
            s2 == parent2.nodes@,
            child@ == s1.take(point as int) + spec_ox_rest(s1, s2, point as int, j as int),
        decreases n - j,
    {
        let x = parent2.nodes[j];
        if !contains_upto(&parent1.nodes, point, x) {
            child.push(x);
            proof {
                assert(child@ =~= s1.take(point as int) + spec_ox_rest(
                    s1,
                    s2,
                    point as int,
                    j + 1,
                ));
            }
        } else {
            proof {
                assert(child@ =~= s1.take(point as int) + spec_ox_rest(
                    s1,
                    s2,
                    point as int,
                    j + 1,
                ));
            }
        }
        j = j + 1;
    }
    proof {
        let nn = g.spec_node_count();
        let prefix = s1.take(point as int);
        let rest = spec_ox_rest(s1, s2, point as int, n as int);
        lemma_ox_rest_props(s1, s2, point as int, n as int);
        assert forall|i1: int, i2: int|
            0 <= i1 < child@.len() && 0 <= i2 < child@.len() && i1 != i2 implies child@[i1]
            != child@[i2] by {
            let p = point as int;
            if i1 < p && i2 < p {
                assert(child@[i1] == s1[i1] && child@[i2] == s1[i2]);
            } else if i1 < p {
                assert(child@[i1] == prefix[i1] && child@[i2] == rest[i2 - p]);
                if child@[i1] == child@[i2] {
                    assert(prefix.contains(rest[i2 - p]));
                }
            } else if i2 < p {
                assert(child@[i2] == prefix[i2] && child@[i1] == rest[i1 - p]);
                if child@[i1] == child@[i2] {
                    assert(prefix.contains(rest[i1 - p]));
                }
            } else {
                assert(child@[i1] == rest[i1 - p] && child@[i2] == rest[i2 - p]);
            }
        }
        assert forall|k: int| 0 <= k < child@.len() implies (#[trigger] child@[k] as int) < nn by {
            let p = point as int;
            if k < p {
                assert(child@[k] == s1[k]);
            } else {
                assert(child@[k] == rest[k - p]);
                assert(spec_among(s2, n as int, rest[k - p]));
                let jj = choose|jj: int| 0 <= jj < n && s2[jj] == rest[k - p];
                assert((s2[jj] as int) < nn);
            }
        }
        lemma_perm_bijective(s2, nn);
        assert forall|v: int| 0 <= v < nn implies #[trigger] spec_hits(child@, v) by {
            assert(spec_hits(s2, v));
            let jj = choose|jj: int| 0 <= jj < s2.len() && (#[trigger] s2[jj] as int) == v;
            let p = point as int;
            if prefix.contains(s2[jj]) {
                let k = choose|k: int| 0 <= k < prefix.len() && prefix[k] == s2[jj];
                assert(child@[k] == s2[jj]);
                assert(0 <= k < child@.len() && (child@[k] as int) == v);
            } else {
                assert(rest.contains(s2[jj]));
                let k = choose|k: int| 0 <= k < rest.len() && rest[k] == s2[jj];
                assert(child@[p + k] == s2[jj]);
                assert(0 <= p + k < child@.len() && (child@[p + k] as int) == v);
            }
        }
        lemma_covering_perm(child@, nn);
    }
    let r = Solution::new(child, g);
    proof {
        assert(1 <= point as int <= g.spec_node_count() - 2);
        assert(r.nodes@ == spec_order_crossover(parent1.nodes@, parent2.nodes@, point as int));
    }
    r
}

/// Random-swap mutation: with probability `mutation_num / mutation_den`
/// the tour has two distinct positions exchanged and is re-evaluated;
/// otherwise it is untouched.
pub fn mutate<G: Graph>(solution: &mut Solution, g: &G, mutation_num: u64, mutation_den: u64)
    requires
        old(solution).wf(g),
        spec_complete(g),
        g.spec_node_count() >= 2,
        mutation_den >= 1,
    ensures
        final(solution).wf(g),
        final(solution).nodes@ == old(solution).nodes@ || exists|a: int, b: int|
            0 <= a < old(solution).nodes@.len() && 0 <= b < old(solution).nodes@.len() && a != b
                && final(solution).nodes@ == old(solution).nodes@.update(
                a,
                old(solution).nodes@[b],
            ).update(b, old(solution).nodes@[a]),
{
    if rand_below(mutation_den) < mutation_num {
        let next = solution.random_neighbour(g);
        *solution = next;
    }
}

/// The whole genetic run: the result is the shortest tour of the final
/// population.
pub fn run<G: Graph>(graph: &G, params: GAParams) -> (r: Solution)
    requires
        graph.wf(),
        spec_complete(graph),
        graph.spec_node_count() >= 3,
        params.wf(),
    ensures
        r.wf(graph),
{
    let size = params.population_size;
    let mut population = initialize_population(graph, size);
    let mut generation: usize = 0;
    while generation < params.generations
        invariant
            generation <= params.generations,
            graph.wf(),
            spec_complete(graph),
            graph.spec_node_count() >= 3,
            params.wf(),
            size == params.population_size,
            population.len() == size,
            spec_pop_wf(population@, graph),
        decreases params.generations - generation,
    {
        let mut new_population: Vec<Solution> = Vec::new();
        while new_population.len() < size
            invariant
                new_population.len() <= size,
                graph.wf(),
                spec_complete(graph),
                graph.spec_node_count() >= 3,
                params.wf(),
                size == params.population_size,
                population.len() == size,
                spec_pop_wf(population@, graph),
                spec_pop_wf(new_population@, graph),
            decreases size - new_population.len(),
        {
            let i1 = selection(&population, graph);
            let i2 = selection(&population, graph);
            let mut offspring = crossover(&population[i1], &population[i2], graph);
            mutate(&mut offspring, graph, params.mutation_num, params.mutation_den);
            new_population.push(offspring);
        }
        population = new_population;
        generation = generation + 1;
    }
    let best = best_of(&population);
    let winner = population[best].clone();
    winner
}

/// The index of the best (shortest) tour by value order, the earliest
/// among ties.
pub fn best_of(population: &Vec<Solution>) -> (r: usize)
    requires
        population.len() >= 1,
    ensures
        r < population.len(),
        forall|k: int|
            0 <= k < population@.len() ==> (#[trigger] population@[k]).value
                >= population@[r as int].value,
        forall|k: int|
            0 <= k < r as int ==> (#[trigger] population@[k]).value > population@[r as int].value,
{
    let mut best: usize = 0;
    let mut i: usize = 1;
    while i < population.len()
        invariant
            1 <= i <= population.len(),
            best < i,
            population.len() >= 1,
            forall|k: int|
                0 <= k < i ==> (#[trigger] population@[k]).value >= population@[best as int].value,
            forall|k: int|
                0 <= k < best as int ==> (#[trigger] population@[k]).value > population@[best as int].value,
        decreases population.len() - i,
    {
        let dir = Direction::Minimize;
        if dir.better(population[i].value, population[best].value) {
            best = i;
        }
        i = i + 1;
    }
    best
}

} // verus!
