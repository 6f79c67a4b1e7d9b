//! GRASP for the knapsack problem: each iteration builds a randomized
//! greedy candidate — picking uniformly from a restricted candidate list
//! (RCL) of the best incremental gains — then locally optimizes it with a
//! single first-improvement pass, keeping the best feasible candidate
//! ever seen.

use vstd::prelude::*;

use crate::knapsack::lemma_solution_value_bounds;
use crate::knapsack::sorted_by_value_desc;
use crate::knapsack::spec_eval_of;
use crate::knapsack::spec_total_weight;
use crate::knapsack::spec_is_value_order;
use crate::knapsack::wf_items;
use crate::knapsack::EvaluationMethod;
use crate::knapsack::Item;
use crate::knapsack::Solution;
use crate::knapsack::UWeight;
use crate::knapsack::Weight;
use crate::knapsack::WithPenalty;
use crate::knapsack::MAX_TOTAL;
use crate::order::Direction;
use crate::rng::rand_below;

verus! {

/// Driver parameters; `a` is the RCL looseness `a_num / a_den`, between
/// zero (pure greedy) and one (pure random).
#[derive(Clone, Copy, Debug)]
pub struct PParams {
    pub i_max: usize,
    pub idle_max: usize,
    pub a_num: u64,
    pub a_den: u64,
    pub penalty: UWeight,
}

impl PParams {
    /// Zero for `i_max` or `idle_max` disables that stop; at least one
    /// stop must be configured for the run to be finite.
    pub open spec fn wf(&self) -> bool {
        &&& self.i_max != 0 || self.idle_max != 0
        &&& 1 <= self.a_den <= 0x100000
        &&& self.a_num <= self.a_den
    }
}

/// The selection with every item included: what the randomized greedy
/// construction always produces, whatever the draws.
pub open spec fn spec_full_selection(n: nat) -> Seq<bool> {
    Seq::new(n, |j: int| true)
}

/// One local-search step: flip item `i`, and keep the flip exactly when
/// it strictly improves the value without increasing the total weight.
pub open spec fn spec_ls_step<E: EvaluationMethod>(
    items: Seq<Item>,
    method: E,
    bits: Seq<bool>,
    i: int,
) -> Seq<bool> {
    let flipped = bits.update(i, !bits[i]);
    if spec_eval_of(items, method, flipped) > spec_eval_of(items, method, bits)
        && spec_total_weight(items, flipped, items.len() as int) <= spec_total_weight(
        items,
        bits,
        items.len() as int,
    ) {
        flipped
    } else {
        bits
    }
}

/// The selection after the first `t` local-search steps, which walk
/// `order` from its back end — ascending item value.
pub open spec fn spec_ls_bits<E: EvaluationMethod>(
    items: Seq<Item>,
    method: E,
    order: Seq<usize>,
    start: Seq<bool>,
    t: int,
) -> Seq<bool>
    decreases t,
{
    if t <= 0 {
        start
    } else {
        spec_ls_step(
            items,
            method,
            spec_ls_bits(items, method, order, start, t - 1),
            order[order.len() - t] as int,
        )
    }
}

/// How much better the candidate is than the current solution.
pub fn eval_candidate(s: &Solution<WithPenalty>, s_prime: &Solution<WithPenalty>, knapsack: &Vec<
    Item,
>) -> (g: Weight)
    requires
        s.wf(knapsack@),
        s_prime.wf(knapsack@),
    ensures
        g as int == s_prime.value - s.value,
{
    proof {
        lemma_solution_value_bounds(knapsack@, s);
        lemma_solution_value_bounds(knapsack@, s_prime);
    }
    s_prime.value - s.value
}

/// The smallest gain in the list.
pub open spec fn spec_gain_min(gains: Seq<i64>) -> int
    decreases gains.len(),
{
    if gains.len() <= 1 {
        gains[0] as int
    } else {
        let rest = spec_gain_min(gains.drop_last());
        if (gains.last() as int) < rest {
            gains.last() as int
        } else {
            rest
        }
    }
}

/// The largest gain in the list.
pub open spec fn spec_gain_max(gains: Seq<i64>) -> int
    decreases gains.len(),
{
    if gains.len() <= 1 {
        gains[0] as int
    } else {
        let rest = spec_gain_max(gains.drop_last());
        if (gains.last() as int) > rest {
            gains.last() as int
        } else {
            rest
        }
    }
}

/// Every gain lies between the minimum and the maximum.
pub proof fn lemma_gain_min_max(gains: Seq<i64>, i: int)
    requires
        0 <= i < gains.len(),
    ensures
        spec_gain_min(gains) <= gains[i] <= spec_gain_max(gains),
        spec_gain_min(gains) <= spec_gain_max(gains),
    decreases gains.len(),
{
    if gains.len() > 1 {
        if i < gains.len() - 1 {
            lemma_gain_min_max(gains.drop_last(), i);
        } else {
            lemma_gain_min_max(gains.drop_last(), 0);
        }
    }
}

/// The maximization cutoff: `best - a * (best - worst)`, the fraction
/// taken in integer arithmetic, so that `a = 0` demands the best gain
/// and `a = 1` admits the whole range.
pub open spec fn spec_rcl_cutoff_max(gains: Seq<i64>, a_num: int, a_den: int) -> int {
    spec_gain_max(gains) - a_num * (spec_gain_max(gains) - spec_gain_min(gains)) / a_den
}

/// GRASP RCL size at the extremes, maximization: with `a = 1` the cutoff
/// collapses to the worst gain, so every remaining candidate enters the
/// RCL; with `a = 0` it collapses to the best gain, so exactly the
/// candidates achieving the best gain enter.
pub proof fn lemma_rcl_max_extremes(gains: Seq<i64>, a_den: int, i: int)
    requires
        0 <= i < gains.len(),
        1 <= a_den,
    ensures
        gains[i] >= spec_rcl_cutoff_max(gains, a_den, a_den),
        gains[i] >= spec_rcl_cutoff_max(gains, 0, a_den) <==> gains[i] == spec_gain_max(gains),
{
    lemma_gain_min_max(gains, i);
    let range = spec_gain_max(gains) - spec_gain_min(gains);
    assert(0 * range == 0) by (nonlinear_arith);
    vstd::arithmetic::div_mod::lemma_div_of0(a_den);
    vstd::arithmetic::div_mod::lemma_div_by_multiple(range, a_den);
    assert(a_den * range == range * a_den) by (nonlinear_arith);
}

/// The cutoff stays between the worst and the best gain, so the RCL is
/// never empty: the best gain always qualifies.
pub proof fn lemma_rcl_cutoff_le_max(gains: Seq<i64>, a_num: int, a_den: int)
    requires
        gains.len() >= 1,
        1 <= a_den,
        0 <= a_num <= a_den,
    ensures
        spec_rcl_cutoff_max(gains, a_num, a_den) <= spec_gain_max(gains),
        spec_gain_min(gains) <= spec_rcl_cutoff_max(gains, a_num, a_den),
{
    lemma_gain_min_max(gains, 0);
    let range = spec_gain_max(gains) - spec_gain_min(gains);
    assert(a_num * range <= a_den * range) by (nonlinear_arith)
        requires
            0 <= a_num <= a_den,
            0 <= range,
    ;
    vstd::arithmetic::div_mod::lemma_div_is_ordered(a_num * range, a_den * range, a_den);
    vstd::arithmetic::div_mod::lemma_div_by_multiple(range, a_den);
    assert(a_den * range == range * a_den) by (nonlinear_arith);
    assert(0 * range == 0) by (nonlinear_arith);
    assert(a_num * range >= 0) by (nonlinear_arith)
        requires
            0 <= a_num,
            0 <= range,
    ;
    vstd::arithmetic::div_mod::lemma_div_pos_is_pos(a_num * range, a_den);
}

/// Builds the restricted candidate list for a maximization step: the
/// indices whose gain reaches `best - a * (best - worst)`, in index
/// order.  The list is never empty: the best gain always qualifies.
pub fn build_rcl_max(gains: &Vec<i64>, a_num: u64, a_den: u64) -> (r: Vec<usize>)
    requires
        1 <= gains.len(),
        1 <= a_den,
        a_num <= a_den,
        a_den <= 0x100000,
        forall|k: int| 0 <= k < gains.len() ==> -0x2000000000000000 <= #[trigger] gains[k] as int
            <= 0x2000000000000000,
    ensures
        1 <= r.len(),
        forall|k: int|
            0 <= k < r.len() ==> (#[trigger] r[k]) < gains.len() && gains[r[k] as int] as int
                >= spec_rcl_cutoff_max(gains@, a_num as int, a_den as int),
        forall|i: int|
            0 <= i < gains.len() && gains[i] as int >= spec_rcl_cutoff_max(
                gains@,
                a_num as int,
                a_den as int,
            ) ==> exists|k: int| 0 <= k < r.len() && (#[trigger] r[k]) as int == i,
        forall|k1: int, k2: int| 0 <= k1 < k2 < r.len() ==> (#[trigger] r[k1]) < (#[trigger] r[k2]),
{
    let n = gains.len();
    // find worst and best
    let mut worst: i64 = gains[0];
    let mut best: i64 = gains[0];
    let mut i: usize = 1;
    proof {
        assert(gains@.take(1).drop_last() =~= Seq::<i64>::empty());
        assert(gains@.take(1)[0] == gains@[0]);
    }
    while i < n
        invariant
            1 <= i <= n,
            n == gains.len(),
            worst as int == spec_gain_min(gains@.take(i as int)),
            best as int == spec_gain_max(gains@.take(i as int)),
        decreases n - i,
    {
        proof {
            assert(gains@.take(i + 1).drop_last() =~= gains@.take(i as int));
            assert(gains@.take(i + 1).last() == gains@[i as int]);
        }
        let v = gains[i];
        if v < worst {
            worst = v;
        }
        if v > best {
            best = v;
        }
        i = i + 1;
    }
    proof {
        assert(gains@.take(n as int) =~= gains@);
    }
    let range = (best as i128) - (worst as i128);
    proof {
        lemma_gain_min_max(gains@, 0);
        lemma_gain_extremes_bounds(gains@, -0x2000000000000000, 0x2000000000000000);
        lemma_rcl_cutoff_le_max(gains@, a_num as int, a_den as int);
        assert(0 <= (a_num as int) * ((best as int) - (worst as int)) <= 0x100000
            * 0x4000000000000000) by (nonlinear_arith)
            requires
                0 <= (a_num as int) <= 0x100000,
                0 <= (best as int) - (worst as int) <= 0x4000000000000000,
        ;
    }
    let cutoff_i128 = (best as i128) - ((a_num as i128) * range) / (a_den as i128);
    let cutoff = cutoff_i128 as i64;
    let mut r: Vec<usize> = Vec::new();
    let mut j: usize = 0;
    while j < n
        invariant
            j <= n,
            n == gains.len(),
            cutoff as int == spec_rcl_cutoff_max(gains@, a_num as int, a_den as int),
            forall|k: int|
                0 <= k < r.len() ==> (#[trigger] r[k]) < j && gains@[r[k] as int] as int
                    >= cutoff as int,
            forall|i2: int|
                0 <= i2 < j && gains@[i2] as int >= cutoff as int ==> exists|k: int|
                    0 <= k < r.len() && (#[trigger] r[k]) as int == i2,
            forall|k1: int, k2: int|
                0 <= k1 < k2 < r.len() ==> (#[trigger] r[k1]) < (#[trigger] r[k2]),
        decreases n - j,
    {
        let ghost r_old = r@;
        if gains[j] >= cutoff {
            r.push(j);
        }
        proof {
            assert forall|i2: int|
                0 <= i2 < j + 1 && gains@[i2] as int >= cutoff as int implies exists|k: int|
                0 <= k < r.len() && (#[trigger] r[k]) as int == i2 by {
                if i2 < j {
                    let k = choose|k: int| 0 <= k < r_old.len() && (#[trigger] r_old[k]) as int == i2;
                    assert(r@[k] as int == i2);
                } else {
                    assert(r@[r.len() - 1] as int == i2);
                }
            }
        }
        j = j + 1;
    }
    proof {
        // the best gain always qualifies, so the list is not empty
        lemma_gain_max_witness(gains@);
        let bi = choose|bi: int|
            0 <= bi < gains@.len() && #[trigger] gains@[bi] as int == spec_gain_max(gains@);
        assert(gains@[bi] as int >= spec_rcl_cutoff_max(gains@, a_num as int, a_den as int));
    }
    r
}

/// The extremes stay within any bound the entries obey.
pub proof fn lemma_gain_extremes_bounds(gains: Seq<i64>, lo: int, hi: int)
    requires
        gains.len() >= 1,
        forall|k: int| 0 <= k < gains.len() ==> lo <= #[trigger] gains[k] as int <= hi,
    ensures
        lo <= spec_gain_min(gains) <= spec_gain_max(gains) <= hi,
    decreases gains.len(),
{
    if gains.len() == 1 {
        assert(lo <= gains[0] as int <= hi);
    } else {
        lemma_gain_extremes_bounds(gains.drop_last(), lo, hi);
        lemma_gain_min_max(gains, gains.len() - 1);
    }
}

/// The maximum is attained somewhere in the list.
pub proof fn lemma_gain_max_witness(gains: Seq<i64>)
    requires
        gains.len() >= 1,
    ensures
        exists|bi: int|
            0 <= bi < gains.len() && #[trigger] gains[bi] as int == spec_gain_max(gains),
    decreases gains.len(),
{
    if gains.len() == 1 {
        assert(gains[0] as int == spec_gain_max(gains));
    } else {
        lemma_gain_max_witness(gains.drop_last());
        if (gains.last() as int) > spec_gain_max(gains.drop_last()) {
            assert(gains[gains.len() - 1] as int == spec_gain_max(gains));
        } else {
            let bi = choose|bi: int|
                0 <= bi < gains.drop_last().len() && #[trigger] gains.drop_last()[bi] as int
                    == spec_gain_max(gains.drop_last());
            assert(gains[bi] as int == spec_gain_max(gains));
        }
    }
}

/// One randomized greedy construction: the candidate list holds the
/// unplaced items; each step computes every candidate's inclusion gain,
/// builds the RCL from the cutoff, places one member drawn uniformly
/// from it, and repeats until every item is placed.
pub fn random_greedy_solution(
    knapsack: &Vec<Item>,
    a_num: u64,
    a_den: u64,
    params: WithPenalty,
) -> (r: Solution<WithPenalty>)
    requires
        wf_items(knapsack@),
        params.wf(),
        1 <= knapsack.len(),
        1 <= a_den <= 0x100000,
        a_num <= a_den,
    ensures
        r.wf(knapsack@),
        r.eval_method == params,
        forall|i: int| 0 <= i < r.items@.len() ==> #[trigger] r.items@[i],
{
    let n = knapsack.len();
    let mut s = Solution::empty(knapsack, params);
    let mut unplaced: Vec<usize> = Vec::new();
    let mut i: usize = 0;
    while i < n
        invariant
            i <= n,
            unplaced.len() == i,
            forall|k: int| 0 <= k < i ==> (#[trigger] unplaced@[k]) == k,
        decreases n - i,
    {
        unplaced.push(i);
        i = i + 1;
    }
    proof {
        assert forall|idx: int| 0 <= idx < n implies !(#[trigger] s.items@[idx])
            && unplaced@.contains(idx as usize) by {
            assert(unplaced@[idx] == idx as usize);
        }
    }
    while unplaced.len() > 0
        invariant
            wf_items(knapsack@),
            params.wf(),
            1 <= a_den <= 0x100000,
            a_num <= a_den,
            n == knapsack.len(),
            s.wf(knapsack@),
            s.eval_method == params,
            unplaced@.no_duplicates(),
            forall|k: int| 0 <= k < unplaced.len() ==> (#[trigger] unplaced@[k]) < n,
            forall|idx: int|
                0 <= idx < n ==> (#[trigger] s.items@[idx] <==> !unplaced@.contains(idx as usize)),
        decreases unplaced.len(),
    {
        let m = unplaced.len();
        let mut gains: Vec<i64> = Vec::new();
        let mut c: usize = 0;
        while c < m
            invariant
                c <= m,
                m == unplaced.len(),
                gains.len() == c,
                wf_items(knapsack@),
                params.wf(),
                n == knapsack.len(),
                s.wf(knapsack@),
                s.eval_method == params,
                forall|k: int| 0 <= k < unplaced.len() ==> (#[trigger] unplaced@[k]) < n,
                forall|k: int|
                    0 <= k < c ==> -0x2000000000000000 <= #[trigger] gains@[k] as int
                        <= 0x2000000000000000,
            decreases m - c,
        {
            let flipped = s.flip(knapsack, unplaced[c]);
            let g = eval_candidate(&s, &flipped, knapsack);
            proof {
                lemma_solution_value_bounds(knapsack@, &s);
                lemma_solution_value_bounds(knapsack@, &flipped);
            }
            gains.push(g);
            c = c + 1;
        }
        let rcl = build_rcl_max(&gains, a_num, a_den);
        let pick = rand_below(rcl.len() as u64) as usize;
        let chosen = rcl[pick];
        let item = unplaced[chosen];
        proof {
            assert(unplaced@.contains(item));
        }
        let next = s.flip(knapsack, item);
        let ghost unplaced_old = unplaced@;
        let ghost s_old = s;
        s = next;
        unplaced.remove(chosen);
        proof {
            assert forall|i1: int, i2: int|
                0 <= i1 < unplaced@.len() && 0 <= i2 < unplaced@.len() && i1 != i2
                implies unplaced@[i1] != unplaced@[i2] by {
                let o1: int = if i1 < chosen {
                    i1
                } else {
                    i1 + 1
                };
                let o2: int = if i2 < chosen {
                    i2
                } else {
                    i2 + 1
                };
                assert(unplaced@[i1] == unplaced_old[o1] && unplaced@[i2] == unplaced_old[o2]);
            }
            assert forall|k: int| 0 <= k < unplaced@.len() implies (#[trigger] unplaced@[k])
                < n by {
                let ok: int = if k < chosen {
                    k
                } else {
                    k + 1
                };
                assert(unplaced@[k] == unplaced_old[ok]);
            }
            assert forall|idx: int| 0 <= idx < n implies (#[trigger] s.items@[idx]
                <==> !unplaced@.contains(idx as usize)) by {
                if idx == item as int {
                    if unplaced@.contains(item) {
                        let k = choose|k: int| 0 <= k < unplaced@.len() && unplaced@[k] == item;
                        let ok: int = if k < chosen {
                            k
                        } else {
                            k + 1
                        };
                        assert(unplaced_old[ok] == item && unplaced_old[chosen as int] == item);
                    }
                } else {
                    if unplaced_old.contains(idx as usize) {
                        let k = choose|k: int|
                            0 <= k < unplaced_old.len() && unplaced_old[k] == idx as usize;
                        if k < chosen {
                            assert(unplaced@[k] == idx as usize);
                        } else {
                            assert(unplaced@[k - 1] == idx as usize);
                        }
                    }
                    if unplaced@.contains(idx as usize) {
                        let k = choose|k: int|
                            0 <= k < unplaced@.len() && unplaced@[k] == idx as usize;
                        let ok: int = if k < chosen {
                            k
                        } else {
                            k + 1
                        };
                        assert(unplaced_old[ok] == idx as usize);
                    }
                }
            }
        }
    }
    s
}

/// One local-optimization pass: items in ascending value order, each
/// flipped once, the flip kept only when it strictly improves the value
/// without increasing the total weight.  The value never worsens.
pub fn greedy_search(s: &mut Solution<WithPenalty>, knapsack: &Vec<Item>)
    requires
        old(s).wf(knapsack@),
    ensures
        final(s).wf(knapsack@),
        final(s).eval_method == old(s).eval_method,
        final(s).value >= old(s).value,
        spec_total_weight(knapsack@, final(s).items@, knapsack@.len() as int) <= spec_total_weight(
            knapsack@,
            old(s).items@,
            knapsack@.len() as int,
        ),
        exists|ord: Seq<usize>|
            spec_is_value_order(knapsack@, ord) && final(s).items@ == spec_ls_bits(
                knapsack@,
                old(s).eval_method,
                ord,
                old(s).items@,
                knapsack@.len() as int,
            ),
{
    let order = sorted_by_value_desc(knapsack);
    let mut k: usize = order.len();
    proof {
        assert(s.items@ == spec_ls_bits(knapsack@, old(s).eval_method, order@, old(s).items@, 0));
    }
    while k > 0
        invariant
            k <= order.len(),
            order.len() == knapsack.len(),
            wf_items(knapsack@),
            spec_is_value_order(knapsack@, order@),
            s.wf(knapsack@),
            s.eval_method == old(s).eval_method,
            s.value >= old(s).value,
            spec_total_weight(knapsack@, s.items@, knapsack@.len() as int) <= spec_total_weight(
                knapsack@,
                old(s).items@,
                knapsack@.len() as int,
            ),
            s.items@ == spec_ls_bits(
                knapsack@,
                old(s).eval_method,
                order@,
                old(s).items@,
                order@.len() - k,
            ),
        decreases k,
    {
        k = k - 1;
        let dir = Direction::Maximize;
        let i = order[k];
        let ghost s_before = s.items@;
        let s_prime = s.flip(knapsack, i);
        let w_prime = s_prime.total_weight(knapsack);
        let w_cur = s.total_weight(knapsack);
        if dir.better(s_prime.value, s.value) && w_prime <= w_cur {
            *s = s_prime;
        }
        proof {
            assert(order@[order@.len() - (order@.len() - k)] == order@[k as int]);
            assert(s.items@ == spec_ls_step(
                knapsack@,
                old(s).eval_method,
                s_before,
                order@[k as int] as int,
            ));
        }
    }
}

/// One GRASP iteration: construct, locally optimize, and take over the
/// incumbent only on a strict, capacity-respecting improvement.  The
/// incumbent value never worsens; it is replaced exactly when the idle
/// counter resets, by a strictly better candidate within the capacity,
/// and otherwise both it and the counter age untouched.
pub fn grasp_iteration(
    knapsack: &Vec<Item>,
    pparams: PParams,
    params: WithPenalty,
    s_best: &mut Solution<WithPenalty>,
    idle: &mut usize,
)
    requires
        wf_items(knapsack@),
        params.wf(),
        pparams.wf(),
        1 <= knapsack.len(),
        old(s_best).wf(knapsack@),
        old(s_best).eval_method == params,
        *old(idle) < usize::MAX,
    ensures
        final(s_best).wf(knapsack@),
        final(s_best).eval_method == params,
        final(s_best).value >= old(s_best).value,
        *final(idle) == 0 || *final(idle) == *old(idle) + 1,
        *final(idle) == 0 ==> final(s_best).value > old(s_best).value && spec_total_weight(
            knapsack@,
            final(s_best).items@,
            knapsack@.len() as int,
        ) <= params.spec_max_weight(),
        *final(idle) != 0 ==> final(s_best).items@ == old(s_best).items@ && final(s_best).value
            == old(s_best).value,
{
    let dir = Direction::Maximize;
    let mut s = random_greedy_solution(knapsack, pparams.a_num, pparams.a_den, params);
    greedy_search(&mut s, knapsack);
    let w = s.total_weight(knapsack);
    let max_weight = params.max_weight;
    if dir.better(s.value, s_best.value) && w <= max_weight {
        *s_best = s;
        *idle = 0;
    } else {
        *idle = *idle + 1;
    }
}

/// The whole GRASP run: construct, locally optimize, keep the best
/// feasible candidate over the iterations, stopping on the turn budget
/// or on `idle_max` consecutive non-improving iterations (a zero budget
/// disables that stop).  The result is never worse than one
/// constructed-and-optimized candidate: the local-search pass applied to
/// the full selection under some value-descending order.
pub fn run(knapsack: &Vec<Item>, pparams: PParams, params: WithPenalty) -> (r: Solution<
    WithPenalty,
>)
    requires
        wf_items(knapsack@),
        params.wf(),
        pparams.wf(),
        1 <= knapsack.len(),
    ensures
        r.wf(knapsack@),
        r.eval_method == params,
        exists|ord: Seq<usize>|
            spec_is_value_order(knapsack@, ord) && r.value as int >= spec_eval_of(
                knapsack@,
                params,
                spec_ls_bits(
                    knapsack@,
                    params,
                    ord,
                    spec_full_selection(knapsack@.len()),
                    knapsack@.len() as int,
                ),
            ),
{
    let mut s0 = random_greedy_solution(knapsack, pparams.a_num, pparams.a_den, params);
    proof {
        assert(s0.items@ =~= spec_full_selection(knapsack@.len()));
    }
    greedy_search(&mut s0, knapsack);
    let ghost ord = choose|ord: Seq<usize>|
        spec_is_value_order(knapsack@, ord) && s0.items@ == spec_ls_bits(
            knapsack@,
            params,
            ord,
            spec_full_selection(knapsack@.len()),
            knapsack@.len() as int,
        );
    let mut s_best = s0;
    proof {
        lemma_solution_value_bounds(knapsack@, &s_best);
    }
    let mut idle: usize = 0;
    let mut i: usize = 0;
    loop
        invariant_except_break
            pparams.i_max != 0 ==> i <= pparams.i_max,
            pparams.idle_max != 0 ==> idle <= pparams.idle_max,
            wf_items(knapsack@),
            params.wf(),
            pparams.wf(),
            1 <= knapsack.len(),
            s_best.wf(knapsack@),
            s_best.eval_method == params,
            s_best.value <= MAX_TOTAL,
            spec_is_value_order(knapsack@, ord),
            s_best.value as int >= spec_eval_of(
                knapsack@,
                params,
                spec_ls_bits(
                    knapsack@,
                    params,
                    ord,
                    spec_full_selection(knapsack@.len()),
                    knapsack@.len() as int,
                ),
            ),
        ensures
            s_best.wf(knapsack@),
            s_best.eval_method == params,
            spec_is_value_order(knapsack@, ord),
            s_best.value as int >= spec_eval_of(
                knapsack@,
                params,
                spec_ls_bits(
                    knapsack@,
                    params,
                    ord,
                    spec_full_selection(knapsack@.len()),
                    knapsack@.len() as int,
                ),
            ),
        decreases
            (if pparams.i_max != 0 { pparams.i_max - i } else { 0 }),
            MAX_TOTAL - s_best.value,
            (if pparams.idle_max != 0 { pparams.idle_max - idle } else { 0 }),
    {
        if idle == usize::MAX {
            break ;
        }
        grasp_iteration(knapsack, pparams, params, &mut s_best, &mut idle);
        proof {
            lemma_solution_value_bounds(knapsack@, &s_best);
        }
        if pparams.idle_max != 0 && idle >= pparams.idle_max {
            break ;
        }
        if pparams.i_max != 0 {
            if i >= pparams.i_max {
                break ;
            }
            i = i + 1;
        }
    }
    s_best
}

} // verus!
