//! Ant-colony optimization for the traveling salesman problem.  Each
//! generation every ant builds a tour, choosing the next unvisited node
//! with probability proportional to `pheromone^alpha * (1/distance)^beta`
//! in fixed-point arithmetic; the generation's best tour then updates the
//! pheromone matrix — evaporation over every edge, reinforcement along
//! the best tour — and the best tour ever seen is the result.

use vstd::prelude::*;

use crate::graph::add_nodes;
use crate::graph::Graph;
use crate::graph::GraphMat;
use crate::graph::Node;
use crate::graph::MAX_EDGE_WEIGHT;
use crate::order::Direction;
use crate::rng::rand_below;
use crate::rng::lemma_weight_sum_bound;
use crate::rng::lemma_weight_sum_pos;
use crate::rng::weighted_pick;
use crate::tsp::lemma_covering_perm;
use crate::tsp::lemma_transfer_element;
use crate::tsp::spec_complete;
use crate::tsp::spec_hits;
use crate::tsp::spec_tour_value;
use crate::tsp::Solution;

verus! {

/// Scale for the inverse-distance factor of the desirability weight.
pub const DIST_SCALE: u64 = 0xffffffff;

/// Cap on one sampling weight, so that the weights of a whole
/// neighbourhood sum without overflow.
pub const WEIGHT_CAP: u64 = 0x80000000;

/// Driver parameters.  The pheromone and inverse-distance exponents are
/// integers in this model, and evaporation keeps the fraction
/// `1 - evap_num / evap_den` of each trail.
#[derive(Clone, Copy, Debug)]
pub struct Params {
    pub i_max: usize,
    pub alpha: u32,
    pub beta: u32,
    pub evap_num: u64,
    pub evap_den: u64,
    pub tau0: u64,
    pub reinforcement: u64,
    pub ant_count: usize,
}

impl Params {
    pub open spec fn wf(&self) -> bool {
        &&& self.alpha <= 4
        &&& self.beta <= 4
        &&& 1 <= self.evap_den <= 0x100000
        &&& self.evap_num <= self.evap_den
        &&& 1 <= self.tau0 <= MAX_EDGE_WEIGHT
        &&& self.reinforcement <= MAX_EDGE_WEIGHT
        &&& 1 <= self.ant_count
    }
}

/// Clamped fixed-point power: each multiplication is clamped into
/// `[1, WEIGHT_CAP]`.
pub open spec fn spec_pow_clamp(base: int, e: int) -> int
    decreases e,
{
    if e <= 0 {
        1
    } else {
        let q = spec_pow_clamp(base, e - 1) * base;
        if q < 1 {
            1
        } else if q > WEIGHT_CAP {
            WEIGHT_CAP as int
        } else {
            q
        }
    }
}

/// The clamped power stays inside its clamp.
pub proof fn lemma_pow_clamp_bounds(base: int, e: int)
    requires
        0 <= base,
        0 <= e,
    ensures
        1 <= spec_pow_clamp(base, e) <= WEIGHT_CAP,
    decreases e,
{
    if e > 0 {
        lemma_pow_clamp_bounds(base, e - 1);
    }
}

/// Computes the clamped fixed-point power.
pub fn pow_clamp(base: u64, e: u32) -> (r: u64)
    requires
        base <= 0xffffffff,
        e <= 4,
    ensures
        r as int == spec_pow_clamp(base as int, e as int),
        1 <= r <= WEIGHT_CAP,
{
    let mut r: u64 = 1;
    let mut k: u32 = 0;
    while k < e
        invariant
            k <= e,
            base <= 0xffffffff,
            r as int == spec_pow_clamp(base as int, k as int),
            1 <= r <= WEIGHT_CAP,
        decreases e - k,
    {
        proof {
            lemma_pow_clamp_bounds(base as int, k as int);
            assert((r as int) * (base as int) <= (WEIGHT_CAP as int) * 0xffffffff)
                by (nonlinear_arith)
                requires
                    0 <= (r as int) <= WEIGHT_CAP,
                    0 <= (base as int) <= 0xffffffff,
            ;
        }
        let q = r * base;
        r = if q < 1 {
            1
        } else if q > WEIGHT_CAP {
            WEIGHT_CAP
        } else {
            q
        };
        k = k + 1;
    }
    r
}

/// The desirability of moving from `i` to `k`: the pheromone raised to
/// `alpha` times the scaled inverse distance raised to `beta`, clamped
/// into `[1, WEIGHT_CAP]`.
pub fn ant_weight<G: Graph, P: Graph>(
    g: &G,
    pheromones: &P,
    i: Node,
    k: Node,
    params: &Params,
) -> (r: u64)
    requires
        g.wf(),
        pheromones.wf(),
        spec_complete(g),
        g.spec_node_count() == pheromones.spec_node_count(),
        (i as int) < g.spec_node_count(),
        (k as int) < g.spec_node_count(),
        i != k,
        params.wf(),
    ensures
        1 <= r <= WEIGHT_CAP,
{
    proof {
        g.lemma_wf();
        pheromones.lemma_wf();
    }
    let ph = match pheromones.get_edge_weight(i, k) {
        Some(w) => w,
        None => 0,
    };
    let d = match g.get_edge_weight(i, k) {
        Some(w) => w,
        None => {
            proof {
                assert(false);
            }
            1
        },
    };
    proof {
        vstd::arithmetic::div_mod::lemma_div_nonincreasing(DIST_SCALE as int, d as int);
        vstd::arithmetic::div_mod::lemma_div_pos_is_pos(DIST_SCALE as int, d as int);
    }
    let inv = DIST_SCALE / d;
    let p1 = pow_clamp(ph, params.alpha);
    let p2 = pow_clamp(inv, params.beta);
    proof {
        assert((p1 as int) * (p2 as int) <= (WEIGHT_CAP as int) * (WEIGHT_CAP as int))
            by (nonlinear_arith)
            requires
                0 <= (p1 as int) <= WEIGHT_CAP,
                0 <= (p2 as int) <= WEIGHT_CAP,
        ;
        assert((p1 as int) * (p2 as int) >= 1) by (nonlinear_arith)
            requires
                1 <= (p1 as int),
                1 <= (p2 as int),
        ;
    }
    let w = p1 * p2;
    if w > WEIGHT_CAP {
        WEIGHT_CAP
    } else {
        w
    }
}

/// Removes and returns one node of the pool, drawn with probability
/// proportional to its desirability from node `i`.
pub fn remove_random<G: Graph, P: Graph>(
    i: Node,
    s: &mut Vec<Node>,
    g: &G,
    pheromones: &P,
    params: &Params,
) -> (r: Node)
    requires
        g.wf(),
        pheromones.wf(),
        spec_complete(g),
        g.spec_node_count() == pheromones.spec_node_count(),
        (i as int) < g.spec_node_count(),
        1 <= old(s).len() <= 0x8000,
        forall|k: int| 0 <= k < old(s).len() ==> (#[trigger] old(s)@[k] as int) < g.spec_node_count(),
        forall|k: int| 0 <= k < old(s).len() ==> (#[trigger] old(s)@[k]) != i,
        params.wf(),
    ensures
        exists|k: int|
            0 <= k < old(s)@.len() && r == old(s)@[k] && final(s)@ == old(s)@.remove(k),
{
    let m = s.len();
    let mut weights: Vec<u64> = Vec::new();
    let mut c: usize = 0;
    while c < m
        invariant
            c <= m,
            m == s.len(),
            *s == *old(s),
            weights.len() == c,
            g.wf(),
            pheromones.wf(),
            spec_complete(g),
            g.spec_node_count() == pheromones.spec_node_count(),
            (i as int) < g.spec_node_count(),
            params.wf(),
            forall|k: int| 0 <= k < s.len() ==> (#[trigger] s@[k] as int) < g.spec_node_count(),
            forall|k: int| 0 <= k < s.len() ==> (#[trigger] s@[k]) != i,
            forall|k: int| 0 <= k < c ==> 1 <= #[trigger] weights@[k] <= WEIGHT_CAP,
        decreases m - c,
    {
        let cand = s[c];
        let w = ant_weight(g, pheromones, i, cand, params);
        weights.push(w);
        c = c + 1;
    }
    proof {
        lemma_weight_sum_bound(weights@, WEIGHT_CAP as int);
        assert((weights@.len() as int) * (WEIGHT_CAP as int) <= 0x8000 * (WEIGHT_CAP as int))
            by (nonlinear_arith)
            requires
                0 <= (weights@.len() as int) <= 0x8000,
        ;
        lemma_weight_sum_pos(weights@, 0);
    }
    let k = weighted_pick(&weights);
    let r = s.remove(k);
    r
}

/// One ant's tour: a random start node, then repeatedly the weighted
/// draw over the unvisited nodes.
pub fn ant_path<G: Graph, P: Graph>(g: &G, pheromones: &P, params: &Params) -> (r: Solution)
    requires
        g.wf(),
        pheromones.wf(),
        spec_complete(g),
        g.spec_node_count() == pheromones.spec_node_count(),
        g.spec_node_count() >= 2,
        params.wf(),
    ensures
        r.wf(g),
{
    let n = g.node_count();
    proof {
        g.lemma_wf();
    }
    let mut pool: Vec<Node> = Vec::new();
    let mut i: usize = 0;
    while i < n
        invariant
            i <= n,
            n <= 0x8000,
            pool.len() == i,
            forall|k: int| 0 <= k < i ==> (#[trigger] pool@[k] as int) == k,
        decreases n - i,
    {
        pool.push(i as Node);
        i = i + 1;
    }
    let mut path: Vec<Node> = Vec::new();
    proof {
        crate::tsp::lemma_identity_perm(pool@, n as int);
        assert forall|v: int| 0 <= v < n implies #[trigger] spec_hits(path@, v) || spec_hits(
            pool@,
            v,
        ) by {
            assert((pool@[v] as int) == v);
        }
    }
    let start_idx = rand_below(n as u64) as usize;
    proof {
        lemma_transfer_element(path@, pool@, start_idx as int, n as int);
    }
    let mut current = pool[start_idx];
    proof {
        assert(pool@.contains(pool@[start_idx as int]));
    }
    path.push(current);
    pool.remove(start_idx);
    while pool.len() > 0
        invariant
            g.wf(),
            pheromones.wf(),
            spec_complete(g),
            g.spec_node_count() == pheromones.spec_node_count(),
            n == g.spec_node_count(),
            n >= 2,
            n <= 0x8000,
            params.wf(),
            1 <= path.len(),
            current == path@[path@.len() - 1],
            path.len() + pool.len() == n,
            path@.no_duplicates(),
            pool@.no_duplicates(),
            forall|k: int| 0 <= k < path.len() ==> (#[trigger] path@[k] as int) < n,
            forall|k: int| 0 <= k < pool.len() ==> (#[trigger] pool@[k] as int) < n,
            forall|v: Node| !(#[trigger] path@.contains(v) && pool@.contains(v)),
            forall|v: int| 0 <= v < n ==> #[trigger] spec_hits(path@, v) || spec_hits(pool@, v),
        decreases pool.len(),
    {
        proof {
            assert(path@.contains(current));
            assert forall|k: int| 0 <= k < pool.len() implies (#[trigger] pool@[k]) != current by {
                if pool@[k] == current {
                    assert(pool@.contains(current));
                }
            }
        }
        let ghost pool_before = pool@;
        let next = remove_random(current, &mut pool, g, pheromones, params);
        proof {
            let k = choose|k: int|
                0 <= k < pool_before.len() && next == pool_before[k] && pool@ == pool_before.remove(
                    k,
                );
            lemma_transfer_element(path@, pool_before, k, n as int);
        }
        path.push(next);
        current = next;
    }
    proof {
        assert forall|v: int| 0 <= v < n implies #[trigger] spec_hits(path@, v) by {
            assert(!spec_hits(pool@, v));
        }
        lemma_covering_perm(path@, n as int);
    }
    Solution::new(path, g)
}

/// The whole colony run: a fixed number of generations, each of
/// `ant_count` tours; the generation's best evaporates and reinforces
/// the pheromone matrix, and the best tour across all generations is the
/// result — no longer than the sequential tour the incumbent starts
/// from.
pub fn run<G: Graph>(g: &G, params: &Params) -> (r: Solution)
    requires
        g.wf(),
        spec_complete(g),
        g.spec_node_count() >= 2,
        params.wf(),
    ensures
        r.wf(g),
        r.value as int <= spec_tour_value(
            g,
            Seq::new(g.spec_node_count() as nat, |k: int| k as Node),
        ),
{
    let n = g.node_count();
    proof {
        g.lemma_wf();
    }
    let mut pheromones = GraphMat::default();
    add_nodes(&mut pheromones, n);
    let mut a: usize = 0;
    while a < n
        invariant
            a <= n,
            n == g.spec_node_count(),
            pheromones.wf(),
            pheromones.spec_node_count() == n,
            params.wf(),
            forall|x: int, y: int|
                0 <= x < a && 0 <= y < n && x != y ==> 1 <= #[trigger] pheromones.spec_weight(x, y)
                    <= MAX_EDGE_WEIGHT,
        decreases n - a,
    {
        let mut b: usize = 0;
        while b < n
            invariant
                a < n,
                b <= n,
                n == g.spec_node_count(),
                pheromones.wf(),
                pheromones.spec_node_count() == n,
                params.wf(),
                forall|x: int, y: int|
                    0 <= x < a && 0 <= y < n && x != y ==> 1 <= #[trigger] pheromones.spec_weight(
                        x,
                        y,
                    ) <= MAX_EDGE_WEIGHT,
                forall|y: int|
                    0 <= y < b && y != a ==> 1 <= #[trigger] pheromones.spec_weight(a as int, y)
                        <= MAX_EDGE_WEIGHT,
            decreases n - b,
        {
            if a != b {
                proof {
                    pheromones.lemma_wf();
                }
                pheromones.set_edge_weight(a as Node, b as Node, params.tau0);
            }
            b = b + 1;
        }
        a = a + 1;
    }
    let mut most_best = Solution::sequential(g);
    proof {
        assert(most_best.nodes@ =~= Seq::new(g.spec_node_count() as nat, |k: int| k as Node));
    }
    let mut generation: usize = 0;
    while generation < params.i_max
        invariant
            generation <= params.i_max,
            g.wf(),
            spec_complete(g),
            n == g.spec_node_count(),
            n >= 2,
            params.wf(),
            pheromones.wf(),
            pheromones.spec_node_count() == n,
            forall|x: int, y: int|
                0 <= x < n && 0 <= y < n && x != y ==> 1 <= #[trigger] pheromones.spec_weight(x, y)
                    <= MAX_EDGE_WEIGHT,
            most_best.wf(g),
            most_best.value as int <= spec_tour_value(
                g,
                Seq::new(g.spec_node_count() as nat, |k: int| k as Node),
            ),
        decreases params.i_max - generation,
    {
        proof {
            assert(spec_complete(&pheromones));
        }
        let mut best = ant_path(g, &pheromones, params);
        let mut ant: usize = 1;
        while ant < params.ant_count
            invariant
                ant <= params.ant_count,
                g.wf(),
                spec_complete(g),
                n == g.spec_node_count(),
                n >= 2,
                params.wf(),
                pheromones.wf(),
                pheromones.spec_node_count() == n,
                spec_complete(&pheromones),
                best.wf(g),
            decreases params.ant_count - ant,
        {
            let dir = Direction::Minimize;
            let p = ant_path(g, &pheromones, params);
            if dir.better(p.value, best.value) {
                best = p;
            }
            ant = ant + 1;
        }
        // evaporation over every ordered pair, floored at one
        let keep_num = params.evap_den - params.evap_num;
        let mut ea: usize = 0;
        while ea < n
            invariant
                ea <= n,
                n == g.spec_node_count(),
                params.wf(),
                keep_num == params.evap_den - params.evap_num,
                pheromones.wf(),
                pheromones.spec_node_count() == n,
                best.wf(g),
                forall|x: int, y: int|
                    0 <= x < n && 0 <= y < n && x != y ==> 1 <= #[trigger] pheromones.spec_weight(
                        x,
                        y,
                    ) <= MAX_EDGE_WEIGHT,
            decreases n - ea,
        {
            let mut eb: usize = 0;
            while eb < n
                invariant
                    ea < n,
                    eb <= n,
                    n == g.spec_node_count(),
                    params.wf(),
                    keep_num == params.evap_den - params.evap_num,
                    pheromones.wf(),
                    pheromones.spec_node_count() == n,
                    best.wf(g),
                    forall|x: int, y: int|
                        0 <= x < n && 0 <= y < n && x != y ==> 1
                            <= #[trigger] pheromones.spec_weight(x, y) <= MAX_EDGE_WEIGHT,
                decreases n - eb,
            {
                if ea != eb {
                    proof {
                        pheromones.lemma_wf();
                        assert((pheromones.spec_weight(ea as int, eb as int) as int) * (
                        keep_num as int) <= (MAX_EDGE_WEIGHT as int) * 0x100000)
                            by (nonlinear_arith)
                            requires
                                0 <= (pheromones.spec_weight(ea as int, eb as int) as int)
                                    <= MAX_EDGE_WEIGHT,
                                0 <= (keep_num as int) <= 0x100000,
                        ;
                    }
                    let ph = match pheromones.get_edge_weight(ea as Node, eb as Node) {
                        Some(w) => w,
                        None => 1,
                    };
                    let scaled = (ph * keep_num) / params.evap_den;
                    proof {
                        assert((ph as int) * (keep_num as int) <= (params.evap_den as int) * (
                        ph as int)) by (nonlinear_arith)
                            requires
                                0 <= (keep_num as int) <= (params.evap_den as int),
                                0 <= (ph as int),
                        ;
                        vstd::arithmetic::div_mod::lemma_multiply_divide_le(
                            (ph as int) * (keep_num as int),
                            params.evap_den as int,
                            ph as int,
                        );
                    }
                    let faded = if scaled < 1 {
                        1
                    } else {
                        scaled
                    };
                    pheromones.set_edge_weight(ea as Node, eb as Node, faded);
                }
                eb = eb + 1;
            }
            ea = ea + 1;
        }
        // reinforcement along the generation's best tour
        let bv = best.value;
        let delta: u64 = if bv <= 0 {
            0
        } else {
            proof {
                vstd::arithmetic::div_mod::lemma_div_nonincreasing(
                    params.reinforcement as int,
                    bv as int,
                );
                vstd::arithmetic::div_mod::lemma_div_pos_is_pos(
                    params.reinforcement as int,
                    bv as int,
                );
            }
            params.reinforcement / (bv as u64)
        };
        let tour_len = best.nodes.len();
        let mut e: usize = 0;
        while e < tour_len
            invariant
                e <= tour_len,
                tour_len == best.nodes.len(),
                n == g.spec_node_count(),
                tour_len == n,
                n >= 2,
                params.wf(),
                delta <= MAX_EDGE_WEIGHT,
                pheromones.wf(),
                pheromones.spec_node_count() == n,
                best.wf(g),
                forall|x: int, y: int|
                    0 <= x < n && 0 <= y < n && x != y ==> 1 <= #[trigger] pheromones.spec_weight(
                        x,
                        y,
                    ) <= MAX_EDGE_WEIGHT,
            decreases tour_len - e,
        {
            let from = best.nodes[e];
            let to = if e + 1 < tour_len {
                best.nodes[e + 1]
            } else {
                best.nodes[0]
            };
            if from != to {
                proof {
                    pheromones.lemma_wf();
                }
                let ph = match pheromones.get_edge_weight(from, to) {
                    Some(w) => w,
                    None => 1,
                };
                let bumped = if ph + delta > MAX_EDGE_WEIGHT {
                    MAX_EDGE_WEIGHT
                } else {
                    ph + delta
                };
                pheromones.set_edge_weight(from, to, bumped);
            }
            e = e + 1;
        }
        let dir = Direction::Minimize;
        if dir.better(best.value, most_best.value) {
            most_best = best;
        }
        generation = generation + 1;
    }
    most_best
}

} // verus!
