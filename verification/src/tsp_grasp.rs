//! GRASP for the traveling salesman problem: each iteration builds a
//! randomized greedy tour — extending from the last placed node by an
//! edge drawn uniformly from the restricted candidate list (RCL) — then
//! optimizes it to a 2-opt-style local optimum, keeping the shortest
//! tour ever seen.

use vstd::prelude::*;

use crate::graph::Graph;
use crate::graph::Node;
use crate::graph::Weight;
use crate::ksp_grasp::lemma_gain_extremes_bounds;
use crate::ksp_grasp::lemma_gain_min_max;
use crate::ksp_grasp::spec_gain_max;
use crate::ksp_grasp::spec_gain_min;
use crate::order::Direction;
use crate::rng::rand_below;
use crate::tsp::lemma_covering_perm;
use crate::tsp::lemma_tour_value_bounds;
use crate::tsp::lemma_transfer_element;
use crate::tsp::spec_complete;
use crate::tsp::spec_hits;
use crate::tsp::spec_swap_value;
use crate::tsp::Solution;

verus! {

/// Driver parameters; `a` is the RCL looseness `a_num / a_den`, between
/// zero (pure greedy) and one (pure random).
#[derive(Clone, Copy, Debug)]
pub struct Params {
    pub i_max: usize,
    pub idle_max: usize,
    pub a_num: u64,
    pub a_den: u64,
}

impl Params {
    /// Zero for `i_max` or `idle_max` disables that stop; at least one
    /// stop must be configured for the run to be finite.
    pub open spec fn wf(&self) -> bool {
        &&& self.i_max != 0 || self.idle_max != 0
        &&& 1 <= self.a_den <= 0x100000
        &&& self.a_num <= self.a_den
    }
}

/// The incremental gain of a construction candidate: the edge weight
/// from the last placed node.
pub fn eval_candidate<G: Graph>(g: &G, last_node: Node, candidate: Node) -> (r: Weight)
    requires
        g.wf(),
        spec_complete(g),
        (last_node as int) < g.spec_node_count(),
        (candidate as int) < g.spec_node_count(),
        last_node != candidate,
    ensures
        r == g.spec_weight(last_node as int, candidate as int),
        r >= 1,
{
    match g.get_edge_weight(last_node, candidate) {
        Some(w) => w,
        None => {
            proof {
                assert(false);
            }
            0
        },
    }
}

/// The minimization cutoff: `best + a * (worst - best)` where the best
/// gain is the smallest and the worst the largest, so that `a = 0`
/// demands the best gain and `a = 1` admits the whole range.
pub open spec fn spec_rcl_cutoff_min(gains: Seq<i64>, a_num: int, a_den: int) -> int {
    spec_gain_min(gains) + a_num * (spec_gain_max(gains) - spec_gain_min(gains)) / a_den
}

/// The cutoff stays between the smallest and the largest gain, so the
/// RCL is never empty: the smallest gain always qualifies.
pub proof fn lemma_rcl_cutoff_min_bounds(gains: Seq<i64>, a_num: int, a_den: int)
    requires
        gains.len() >= 1,
        1 <= a_den,
        0 <= a_num <= a_den,
    ensures
        spec_gain_min(gains) <= spec_rcl_cutoff_min(gains, a_num, a_den),
        spec_rcl_cutoff_min(gains, a_num, a_den) <= spec_gain_max(gains),
{
    lemma_gain_min_max(gains, 0);
    let range = spec_gain_max(gains) - spec_gain_min(gains);
    assert(a_num * range <= a_den * range) by (nonlinear_arith)
        requires
            0 <= a_num <= a_den,
            0 <= range,
    ;
    vstd::arithmetic::div_mod::lemma_div_is_ordered(a_num * range, a_den * range, a_den);
    vstd::arithmetic::div_mod::lemma_div_by_multiple(range, a_den);
    assert(a_den * range == range * a_den) by (nonlinear_arith);
    assert(a_num * range >= 0) by (nonlinear_arith)
        requires
            0 <= a_num,
            0 <= range,
    ;
    vstd::arithmetic::div_mod::lemma_div_pos_is_pos(a_num * range, a_den);
}

/// Builds the restricted candidate list for a minimization step: the
/// indices whose gain stays within `best + a * (worst - best)`, where
/// the best gain is the smallest and the worst the largest — so with
/// `a = 1` every candidate enters and with `a = 0` only those achieving
/// the smallest gain.  The list is never empty.
pub fn build_rcl_min(gains: &Vec<i64>, a_num: u64, a_den: u64) -> (r: Vec<usize>)
    requires
        1 <= gains.len(),
        1 <= a_den,
        a_num <= a_den,
        a_den <= 0x100000,
        forall|k: int|
            0 <= k < gains.len() ==> 0 <= #[trigger] gains[k] as int <= 0x2000000000000000,
    ensures
        1 <= r.len(),
        forall|k: int|
            0 <= k < r.len() ==> (#[trigger] r[k]) < gains.len() && gains[r[k] as int] as int
                <= spec_rcl_cutoff_min(gains@, a_num as int, a_den as int),
        forall|i: int|
            0 <= i < gains.len() && gains[i] as int <= spec_rcl_cutoff_min(
                gains@,
                a_num as int,
                a_den as int,
            ) ==> exists|k: int| 0 <= k < r.len() && (#[trigger] r[k]) as int == i,
        forall|k1: int, k2: int| 0 <= k1 < k2 < r.len() ==> (#[trigger] r[k1]) < (#[trigger] r[k2]),
{
    let n = gains.len();
    let mut worst: i64 = gains[0];
    let mut best: i64 = gains[0];
    let mut i: usize = 1;
    proof {
        assert(gains@.take(1).drop_last() =~= Seq::<i64>::empty());
        assert(gains@.take(1)[0] == gains@[0]);
    }
    while i < n
        invariant
            1 <= i <= n,
            n == gains.len(),
            worst as int == spec_gain_min(gains@.take(i as int)),
            best as int == spec_gain_max(gains@.take(i as int)),
        decreases n - i,
    {
        proof {
            assert(gains@.take(i + 1).drop_last() =~= gains@.take(i as int));
            assert(gains@.take(i + 1).last() == gains@[i as int]);
        }
        let v = gains[i];
        if v < worst {
            worst = v;
        }
        if v > best {
            best = v;
        }
        i = i + 1;
    }
    proof {
        assert(gains@.take(n as int) =~= gains@);
        lemma_gain_min_max(gains@, 0);
        lemma_gain_extremes_bounds(gains@, 0, 0x2000000000000000);
        lemma_rcl_cutoff_min_bounds(gains@, a_num as int, a_den as int);
        assert(0 <= (a_num as int) * ((best as int) - (worst as int)) <= 0x100000
            * 0x2000000000000000) by (nonlinear_arith)
            requires
                0 <= (a_num as int) <= 0x100000,
                0 <= (best as int) - (worst as int) <= 0x2000000000000000,
        ;
    }
    let range = (best as i128) - (worst as i128);
    let cutoff_i128 = (worst as i128) + ((a_num as i128) * range) / (a_den as i128);
    let cutoff = cutoff_i128 as i64;
    let mut r: Vec<usize> = Vec::new();
    let mut j: usize = 0;
    while j < n
        invariant
            j <= n,
            n == gains.len(),
            cutoff as int == spec_rcl_cutoff_min(gains@, a_num as int, a_den as int),
            forall|k: int|
                0 <= k < r.len() ==> (#[trigger] r[k]) < j && gains@[r[k] as int] as int
                    <= cutoff as int,
            forall|i2: int|
                0 <= i2 < j && gains@[i2] as int <= cutoff as int ==> exists|k: int|
                    0 <= k < r.len() && (#[trigger] r[k]) as int == i2,
            forall|k1: int, k2: int|
                0 <= k1 < k2 < r.len() ==> (#[trigger] r[k1]) < (#[trigger] r[k2]),
        decreases n - j,
    {
        let ghost r_old = r@;
        if gains[j] <= cutoff {
            r.push(j);
        }
        proof {
            assert forall|i2: int|
                0 <= i2 < j + 1 && gains@[i2] as int <= cutoff as int implies exists|k: int|
                0 <= k < r.len() && (#[trigger] r[k]) as int == i2 by {
                if i2 < j {
                    let k = choose|k: int| 0 <= k < r_old.len() && (#[trigger] r_old[k]) as int == i2;
                    assert(r@[k] as int == i2);
                } else {
                    assert(r@[r.len() - 1] as int == i2);
                }
            }
        }
        j = j + 1;
    }
    proof {
        // the smallest gain always qualifies, so the list is not empty
        lemma_gain_min_witness(gains@);
        let bi = choose|bi: int|
            0 <= bi < gains@.len() && #[trigger] gains@[bi] as int == spec_gain_min(gains@);
        assert(gains@[bi] as int <= spec_rcl_cutoff_min(gains@, a_num as int, a_den as int));
    }
    r
}

/// The minimum is attained somewhere in the list.
pub proof fn lemma_gain_min_witness(gains: Seq<i64>)
    requires
        gains.len() >= 1,
    ensures
        exists|bi: int|
            0 <= bi < gains.len() && #[trigger] gains[bi] as int == spec_gain_min(gains),
    decreases gains.len(),
{
    if gains.len() == 1 {
        assert(gains[0] as int == spec_gain_min(gains));
    } else {
        lemma_gain_min_witness(gains.drop_last());
        if (gains.last() as int) < spec_gain_min(gains.drop_last()) {
            assert(gains[gains.len() - 1] as int == spec_gain_min(gains));
        } else {
            let bi = choose|bi: int|
                0 <= bi < gains.drop_last().len() && #[trigger] gains.drop_last()[bi] as int
                    == spec_gain_min(gains.drop_last());
            assert(gains[bi] as int == spec_gain_min(gains));
        }
    }
}

/// GRASP RCL size at the extremes, minimization: with `a = 1` the cutoff
/// collapses to the largest gain, so every remaining candidate enters the
/// RCL; with `a = 0` it collapses to the smallest gain, so exactly the
/// candidates achieving the best (smallest) gain enter.
pub proof fn lemma_rcl_min_extremes(gains: Seq<i64>, a_den: int, i: int)
    requires
        0 <= i < gains.len(),
        1 <= a_den,
    ensures
        gains[i] <= spec_rcl_cutoff_min(gains, a_den, a_den),
        gains[i] <= spec_rcl_cutoff_min(gains, 0, a_den) <==> gains[i] == spec_gain_min(gains),
{
    lemma_gain_min_max(gains, i);
    let range = spec_gain_max(gains) - spec_gain_min(gains);
    assert(0 * range == 0) by (nonlinear_arith);
    vstd::arithmetic::div_mod::lemma_div_of0(a_den);
    vstd::arithmetic::div_mod::lemma_div_by_multiple(range, a_den);
    assert(a_den * range == range * a_den) by (nonlinear_arith);
}

/// One randomized greedy tour: start at node zero, and at each step
/// append one unvisited node drawn uniformly from the RCL of the
/// cheapest edges out of the last placed node.
pub fn random_greedy_solution<G: Graph>(g: &G, a_num: u64, a_den: u64) -> (r: Solution)
    requires
        g.wf(),
        spec_complete(g),
        g.spec_node_count() >= 2,
        1 <= a_den <= 0x100000,
        a_num <= a_den,
    ensures
        r.wf(g),
        r.nodes@[0] == 0,
{
    let n = g.node_count();
    proof {
        g.lemma_wf();
    }
    let mut path: Vec<Node> = Vec::new();
    path.push(0);
    let mut pool: Vec<Node> = Vec::new();
    let mut i: usize = 1;
    while i < n
        invariant
            1 <= i <= n,
            n <= 0x8000,
            pool.len() == i - 1,
            forall|k: int| 0 <= k < pool.len() ==> (#[trigger] pool@[k] as int) == k + 1,
        decreases n - i,
    {
        pool.push(i as Node);
        i = i + 1;
    }
    proof {
        g.lemma_wf();
        assert forall|v: int| 0 <= v < n implies #[trigger] spec_hits(path@, v) || spec_hits(
            pool@,
            v,
        ) by {
            if v == 0 {
                assert(0 <= 0 < path@.len() && (path@[0] as int) == v);
            } else {
                assert((pool@[v - 1] as int) == v);
            }
        }
    }
    while pool.len() > 0
        invariant
            g.wf(),
            spec_complete(g),
            n == g.spec_node_count(),
            n >= 2,
            1 <= a_den <= 0x100000,
            a_num <= a_den,
            1 <= path.len(),
            path@[0] == 0,
            path.len() + pool.len() == n,
            path@.no_duplicates(),
            pool@.no_duplicates(),
            forall|k: int| 0 <= k < path.len() ==> (#[trigger] path@[k] as int) < n,
            forall|k: int| 0 <= k < pool.len() ==> (#[trigger] pool@[k] as int) < n,
            forall|v: Node| !(#[trigger] path@.contains(v) && pool@.contains(v)),
            forall|v: int| 0 <= v < n ==> #[trigger] spec_hits(path@, v) || spec_hits(pool@, v),
        decreases pool.len(),
    {
        let last = path[path.len() - 1];
        let m = pool.len();
        let mut gains: Vec<i64> = Vec::new();
        let mut c: usize = 0;
        while c < m
            invariant
                c <= m,
                m == pool.len(),
                gains.len() == c,
                g.wf(),
                spec_complete(g),
                n == g.spec_node_count(),
                (last as int) < n,
                path@.contains(last),
                forall|k: int| 0 <= k < pool.len() ==> (#[trigger] pool@[k] as int) < n,
                forall|v: Node| !(#[trigger] path@.contains(v) && pool@.contains(v)),
                forall|k: int|
                    0 <= k < c ==> 0 <= #[trigger] gains@[k] as int <= 0x2000000000000000,
            decreases m - c,
        {
            let cand = pool[c];
            proof {
                g.lemma_wf();
                assert(pool@.contains(cand));
            }
            let w = eval_candidate(g, last, cand);
            gains.push(w as i64);
            c = c + 1;
        }
        let rcl = build_rcl_min(&gains, a_num, a_den);
        let pick = rand_below(rcl.len() as u64) as usize;
        let chosen = rcl[pick];
        let node = pool[chosen];
        proof {
            lemma_transfer_element(path@, pool@, chosen as int, n as int);
        }
        path.push(node);
        pool.remove(chosen);
    }
    proof {
        assert forall|v: int| 0 <= v < n implies #[trigger] spec_hits(path@, v) by {
            assert(!spec_hits(pool@, v));
        }
        lemma_covering_perm(path@, n as int);
    }
    Solution::new(path, g)
}

/// 2-opt-style best-improvement search: repeatedly apply the pair swap
/// with the lowest resulting value, until a full scan finds no improving
/// swap.  The result is no longer than the input and is a local optimum:
/// no single swap improves it.
pub fn greedy_search<G: Graph>(s: Solution, g: &G) -> (r: Solution)
    requires
        s.wf(g),
        spec_complete(g),
        g.spec_node_count() >= 2,
    ensures
        r.wf(g),
        r.value <= s.value,
        forall|a: int, b: int|
            0 <= a < g.spec_node_count() && 0 <= b < g.spec_node_count() && a != b
                ==> #[trigger] spec_swap_value(g, r.nodes@, a, b) >= r.value as int,
{
    let n = g.node_count();
    let mut s_best = s;
    proof {
        lemma_tour_value_bounds(g, s_best.nodes@);
    }
    loop
        invariant_except_break
            g.wf(),
            spec_complete(g),
            n == g.spec_node_count(),
            n >= 2,
            s_best.wf(g),
            s_best.value <= s.value,
            s_best.value >= 0,
        ensures
            s_best.wf(g),
            s_best.value <= s.value,
            forall|a: int, b: int|
                0 <= a < g.spec_node_count() && 0 <= b < g.spec_node_count() && a != b
                    ==> #[trigger] spec_swap_value(g, s_best.nodes@, a, b) >= s_best.value as int,
        decreases s_best.value,
    {
        let mut cand: Option<Solution> = None;
        let mut a: usize = 0;
        while a < n
            invariant
                a <= n,
                g.wf(),
                spec_complete(g),
                n == g.spec_node_count(),
                n >= 2,
                s_best.wf(g),
                (cand is None ==> a == 0),
                (cand matches Some(c) ==> c.wf(g) && (forall|x: int, y: int|
                    0 <= x < a && 0 <= y < n && x != y ==> #[trigger] spec_swap_value(
                        g,
                        s_best.nodes@,
                        x,
                        y,
                    ) >= c.value as int)),
            decreases n - a,
        {
            let mut b: usize = 0;
            while b < n
                invariant
                    a < n,
                    b <= n,
                    g.wf(),
                    spec_complete(g),
                    n == g.spec_node_count(),
                    n >= 2,
                    s_best.wf(g),
                    (cand is None ==> a == 0 && b <= 1),
                    (cand matches Some(c) ==> c.wf(g) && (forall|x: int, y: int|
                        0 <= x < n && 0 <= y < n && x != y && (x < a || (x == a && y < b))
                            ==> #[trigger] spec_swap_value(g, s_best.nodes@, x, y) >= c.value
                            as int)),
                decreases n - b,
            {
                if a != b {
                    let s_prime = s_best.swap(a, b, g);
                    proof {
                        assert(s_prime.value as int == spec_swap_value(
                            g,
                            s_best.nodes@,
                            a as int,
                            b as int,
                        ));
                    }
                    let replace = match &cand {
                        None => true,
                        Some(c) => s_prime.value < c.value,
                    };
                    if replace {
                        cand = Some(s_prime);
                    }
                }
                b = b + 1;
            }
            a = a + 1;
        }
        let c = match cand {
            Some(c) => c,
            None => {
                proof {
                    assert(false);
                }
                s_best.clone()
            },
        };
        if c.value < s_best.value {
            s_best = c;
            proof {
                lemma_tour_value_bounds(g, s_best.nodes@);
            }
        } else {
            proof {
                assert forall|x: int, y: int|
                    0 <= x < g.spec_node_count() && 0 <= y < g.spec_node_count() && x != y
                        implies #[trigger] spec_swap_value(g, s_best.nodes@, x, y) >= s_best.value
                    as int by {
                    assert(spec_swap_value(g, s_best.nodes@, x, y) >= c.value as int);
                }
            }
            break ;
        }
    }
    s_best
}

/// One GRASP iteration: construct, optimize to a 2-opt local optimum,
/// and take over the incumbent only on a strict improvement.  The
/// incumbent value never worsens, it stays a local optimum, it is
/// replaced exactly when the idle counter resets, and otherwise both it
/// and the counter age untouched.
pub fn grasp_iteration<G: Graph>(
    g: &G,
    params: &Params,
    s_best: &mut Solution,
    idle: &mut usize,
)
    requires
        g.wf(),
        spec_complete(g),
        g.spec_node_count() >= 2,
        params.wf(),
        old(s_best).wf(g),
        forall|a: int, b: int|
            0 <= a < g.spec_node_count() && 0 <= b < g.spec_node_count() && a != b
                ==> #[trigger] spec_swap_value(g, old(s_best).nodes@, a, b) >= old(
                s_best).value as int,
        *old(idle) < usize::MAX,
    ensures
        final(s_best).wf(g),
        final(s_best).value <= old(s_best).value,
        forall|a: int, b: int|
            0 <= a < g.spec_node_count() && 0 <= b < g.spec_node_count() && a != b
                ==> #[trigger] spec_swap_value(g, final(s_best).nodes@, a, b) >= final(
                s_best).value as int,
        *final(idle) == 0 || *final(idle) == *old(idle) + 1,
        *final(idle) == 0 ==> final(s_best).value < old(s_best).value,
        *final(idle) != 0 ==> final(s_best).nodes@ == old(s_best).nodes@ && final(s_best).value
            == old(s_best).value,
{
    let dir = Direction::Minimize;
    let s1 = random_greedy_solution(g, params.a_num, params.a_den);
    let s2 = greedy_search(s1, g);
    if dir.better(s2.value, s_best.value) {
        *s_best = s2;
        *idle = 0;
    } else {
        *idle = *idle + 1;
    }
}

/// The whole GRASP run: construct, locally optimize, keep the shortest
/// tour over the iterations, stopping on the turn budget or on
/// `idle_max` consecutive non-improving iterations.  The result is a
/// 2-opt local optimum.
pub fn run<G: Graph>(g: &G, params: &Params) -> (r: Solution)
    requires
        g.wf(),
        spec_complete(g),
        g.spec_node_count() >= 2,
        params.wf(),
    ensures
        r.wf(g),
        forall|a: int, b: int|
            0 <= a < g.spec_node_count() && 0 <= b < g.spec_node_count() && a != b
                ==> #[trigger] spec_swap_value(g, r.nodes@, a, b) >= r.value as int,
{
    let s0 = random_greedy_solution(g, params.a_num, params.a_den);
    let mut s_best = greedy_search(s0, g);
    proof {
        lemma_tour_value_bounds(g, s_best.nodes@);
    }
    let mut idle: usize = 0;
    let mut i: usize = 0;
    loop
        invariant_except_break
            params.i_max != 0 ==> i <= params.i_max,
            params.idle_max != 0 ==> idle <= params.idle_max,
            g.wf(),
            spec_complete(g),
            g.spec_node_count() >= 2,
            params.wf(),
            s_best.wf(g),
            s_best.value >= 0,
            forall|a: int, b: int|
                0 <= a < g.spec_node_count() && 0 <= b < g.spec_node_count() && a != b
                    ==> #[trigger] spec_swap_value(g, s_best.nodes@, a, b) >= s_best.value as int,
        ensures
            s_best.wf(g),
            forall|a: int, b: int|
                0 <= a < g.spec_node_count() && 0 <= b < g.spec_node_count() && a != b
                    ==> #[trigger] spec_swap_value(g, s_best.nodes@, a, b) >= s_best.value as int,
        decreases
            (if params.i_max != 0 { params.i_max - i } else { 0 }),
            s_best.value,
            (if params.idle_max != 0 { params.idle_max - idle } else { 0 }),
    {
        if idle == usize::MAX {
            break ;
        }
        grasp_iteration(g, params, &mut s_best, &mut idle);
        proof {
            lemma_tour_value_bounds(g, s_best.nodes@);
        }
        if params.idle_max != 0 && idle >= params.idle_max {
            break ;
        }
        if params.i_max != 0 {
            if i >= params.i_max {
                break ;
            }
            i = i + 1;
        }
    }
    s_best
}

} // verus!
