//! Tabu search for the knapsack problem: from the greedy construction,
//! repeatedly take the best admissible single-bit flip, remember the move
//! in a tabu list that decays each turn, and stop after `i_max` turns or
//! `idle_max` consecutive turns without improvement.

use vstd::prelude::*;

use crate::knapsack::lemma_solution_value_bounds;
use crate::knapsack::spec_eval_of;
use crate::knapsack::spec_flip_value;
use crate::knapsack::spec_flip_weight;
use crate::knapsack::spec_total_weight;
use crate::knapsack::spec_greedy_bits;
use crate::knapsack::spec_is_value_order;
use crate::knapsack::wf_items;
use crate::knapsack::EvaluationMethod;
use crate::knapsack::Item;
use crate::knapsack::Solution;
use crate::knapsack::UWeight;
use crate::knapsack::WithPenalty;
use crate::knapsack::MAX_TOTAL;
use crate::order::Direction;

verus! {

/// Driver parameters.  A zero `i_max` or `idle_max` disables that stop;
/// at least one stop must be configured for the run to be finite.
#[derive(Clone, Copy, Debug)]
pub struct PParams {
    pub i_max: usize,
    pub tabu_memory: usize,
    pub idle_max: usize,
    pub penalty: UWeight,
}

/// Remaining-forbidden-turns per flip index; zero means the move is free.
pub type TabuList = Vec<u64>;

/// Whether flipping bit `i` both strictly beats the incumbent and stays
/// within the capacity: the aspiration criterion.
pub open spec fn spec_aspires(
    items: Seq<Item>,
    method: WithPenalty,
    bits: Seq<bool>,
    i: int,
    best_value: int,
    max_weight: int,
) -> bool {
    spec_flip_value(items, method, bits, i) > best_value && spec_flip_weight(items, bits, i)
        <= max_weight
}

/// Scans every single-bit flip in index order.  A flip that aspires —
/// strictly beats the incumbent within the capacity — returns at once
/// with the earliest such index; otherwise the best non-tabu flip wins,
/// the earliest among ties; with every flip tabu the result is `None`.
pub fn next_neighbour(
    s: &Solution<WithPenalty>,
    tabu: &TabuList,
    s_best: &Solution<WithPenalty>,
    max_weight: UWeight,
    knapsack: &Vec<Item>,
) -> (r: Option<(usize, Solution<WithPenalty>)>)
    requires
        s.wf(knapsack@),
        tabu.len() == knapsack.len(),
    ensures
        (r matches Some(p) ==> p.1.wf(knapsack@) && p.1.eval_method == s.eval_method && (
        p.0 as int) < knapsack@.len() && p.1.items@ == s.items@.update(
            p.0 as int,
            !s.items@[p.0 as int],
        )),
        (exists|i: int|
            0 <= i < knapsack@.len() && spec_aspires(
                knapsack@,
                s.eval_method,
                s.items@,
                i,
                s_best.value as int,
                max_weight as int,
            )) ==> (r matches Some(p) && spec_aspires(
            knapsack@,
            s.eval_method,
            s.items@,
            p.0 as int,
            s_best.value as int,
            max_weight as int,
        ) && (forall|j: int|
            0 <= j < p.0 as int ==> !spec_aspires(
                knapsack@,
                s.eval_method,
                s.items@,
                j,
                s_best.value as int,
                max_weight as int,
            ))),
        (forall|i: int|
            0 <= i < knapsack@.len() ==> !spec_aspires(
                knapsack@,
                s.eval_method,
                s.items@,
                i,
                s_best.value as int,
                max_weight as int,
            )) && (exists|i: int| 0 <= i < knapsack@.len() && tabu@[i] == 0) ==> (r matches Some(p)
            && tabu@[p.0 as int] == 0 && (forall|j: int|
            0 <= j < knapsack@.len() && tabu@[j] == 0 ==> spec_flip_value(
                knapsack@,
                s.eval_method,
                s.items@,
                j,
            ) <= spec_flip_value(knapsack@, s.eval_method, s.items@, p.0 as int)) && (forall|j: int|
            0 <= j < p.0 as int && tabu@[j] == 0 ==> spec_flip_value(
                knapsack@,
                s.eval_method,
                s.items@,
                j,
            ) < spec_flip_value(knapsack@, s.eval_method, s.items@, p.0 as int))),
        (forall|i: int|
            0 <= i < knapsack@.len() ==> !spec_aspires(
                knapsack@,
                s.eval_method,
                s.items@,
                i,
                s_best.value as int,
                max_weight as int,
            )) && (forall|i: int| 0 <= i < knapsack@.len() ==> tabu@[i] != 0) ==> r is None,
{
    let n = knapsack.len();
    let mut cur: Option<(usize, Solution<WithPenalty>)> = None;
    let mut flip: usize = 0;
    while flip < n
        invariant
            flip <= n,
            n == knapsack.len(),
            s.wf(knapsack@),
            tabu.len() == n,
            forall|j: int|
                0 <= j < flip ==> !spec_aspires(
                    knapsack@,
                    s.eval_method,
                    s.items@,
                    j,
                    s_best.value as int,
                    max_weight as int,
                ),
            (cur is None ==> forall|j: int| 0 <= j < flip ==> tabu@[j] != 0),
            (cur matches Some(p) ==> (p.0 as int) < flip && tabu@[p.0 as int] == 0 && p.1.wf(
                knapsack@,
            ) && p.1.eval_method == s.eval_method && p.1.items@ == s.items@.update(
                p.0 as int,
                !s.items@[p.0 as int],
            ) && p.1.value as int == spec_flip_value(
                knapsack@,
                s.eval_method,
                s.items@,
                p.0 as int,
            ) && (forall|j: int|
                0 <= j < flip && tabu@[j] == 0 ==> spec_flip_value(
                    knapsack@,
                    s.eval_method,
                    s.items@,
                    j,
                ) <= p.1.value as int) && (forall|j: int|
                0 <= j < p.0 as int && tabu@[j] == 0 ==> spec_flip_value(
                    knapsack@,
                    s.eval_method,
                    s.items@,
                    j,
                ) < p.1.value as int)),
        decreases n - flip,
    {
        let s_prime = s.flip(knapsack, flip);
        let dir = Direction::Maximize;
        let w_prime = s_prime.total_weight(knapsack);
        if dir.better(s_prime.value, s_best.value) && w_prime <= max_weight {
            proof {
                assert(spec_aspires(
                    knapsack@,
                    s.eval_method,
                    s.items@,
                    flip as int,
                    s_best.value as int,
                    max_weight as int,
                ));
            }
            return Some((flip, s_prime));
        }
        if tabu[flip] == 0 {
            let replace = match &cur {
                None => true,
                Some(p) => s_prime.value > p.1.value,
            };
            if replace {
                cur = Some((flip, s_prime));
            }
        }
        flip = flip + 1;
    }
    cur
}

/// The driver's working state: the current candidate, the incumbent
/// best, the tabu list and the idle-turn counter.
pub struct TabuState {
    pub s: Solution<WithPenalty>,
    pub s_best: Solution<WithPenalty>,
    pub tabu: TabuList,
    pub idle: usize,
}

impl TabuState {
    pub open spec fn wf(&self, knapsack: Seq<Item>) -> bool {
        &&& self.s.wf(knapsack)
        &&& self.s_best.wf(knapsack)
        &&& self.s.eval_method == self.s_best.eval_method
        &&& self.tabu@.len() == knapsack.len()
    }
}

/// The decayed remaining-turns counter: one less, floored at zero.
pub open spec fn spec_aged(c: u64) -> int {
    if c > 0 {
        c - 1
    } else {
        0
    }
}

/// One tabu turn: pick the next neighbour (forcing the nearest-to-expiry
/// tabu move when everything is tabu), advance the incumbent when the
/// move strictly improves it within the capacity, age the tabu list, and
/// remember the move taken.  The contract pins the whole step: the
/// working candidate becomes one flip of the old one — a free, aspiring
/// or forced move — every other tabu counter ages by one, the taken move
/// gets the full memory, and the incumbent and idle counter move exactly
/// on a strict, capacity-respecting improvement.
pub fn tabu_step(
    knapsack: &Vec<Item>,
    max_weight: UWeight,
    tabu_memory: u64,
    state: &mut TabuState,
)
    requires
        old(state).wf(knapsack@),
        knapsack.len() >= 1,
        tabu_memory >= 1,
        old(state).idle < usize::MAX,
    ensures
        final(state).wf(knapsack@),
        final(state).s_best.value >= old(state).s_best.value,
        final(state).s.eval_method == old(state).s.eval_method,
        final(state).idle == 0 || final(state).idle == old(state).idle + 1,
        final(state).tabu@.len() == old(state).tabu@.len(),
        exists|i: int|
            0 <= i < knapsack@.len() && final(state).s.items@ == old(state).s.items@.update(
                i,
                !old(state).s.items@[i],
            ) && (#[trigger] final(state).tabu@[i]) == tabu_memory && (forall|j: int|
                0 <= j < knapsack@.len() && j != i ==> (#[trigger] final(state).tabu@[j]) as int
                    == spec_aged(old(state).tabu@[j])) && (old(state).tabu@[i] == 0
                || spec_aspires(
                knapsack@,
                old(state).s.eval_method,
                old(state).s.items@,
                i,
                old(state).s_best.value as int,
                max_weight as int,
            ) || (forall|j: int| 0 <= j < knapsack@.len() ==> (#[trigger] old(state).tabu@[j]) != 0))
                && ((forall|j: int|
                0 <= j < knapsack@.len() ==> (#[trigger] old(state).tabu@[j]) != 0) && (forall|
                j: int,
            |
                0 <= j < knapsack@.len() ==> !spec_aspires(
                    knapsack@,
                    old(state).s.eval_method,
                    old(state).s.items@,
                    j,
                    old(state).s_best.value as int,
                    max_weight as int,
                )) ==> (forall|j: int|
                0 <= j < knapsack@.len() ==> old(state).tabu@[i] <= (#[trigger] old(
                    state).tabu@[j]))),
        (final(state).s.value > old(state).s_best.value && spec_total_weight(
            knapsack@,
            final(state).s.items@,
            knapsack@.len() as int,
        ) <= max_weight as int) ==> final(state).s_best.items@ == final(state).s.items@ && final(
            state).s_best.value == final(state).s.value && final(state).idle == 0,
        !(final(state).s.value > old(state).s_best.value && spec_total_weight(
            knapsack@,
            final(state).s.items@,
            knapsack@.len() as int,
        ) <= max_weight as int) ==> final(state).s_best.items@ == old(state).s_best.items@ && final(
            state).s_best.value == old(state).s_best.value && final(state).idle == old(state).idle + 1,
        (forall|j: int| 0 <= j < old(state).tabu@.len() ==> (#[trigger] old(state).tabu@[j])
            <= tabu_memory) ==> (forall|j: int|
            0 <= j < final(state).tabu@.len() ==> (#[trigger] final(state).tabu@[j])
                <= tabu_memory),
{
    let picked = next_neighbour(&state.s, &state.tabu, &state.s_best, max_weight, knapsack);
    let ghost ks = knapsack@;
    let ghost method = old(state).s.eval_method;
    let ghost bits = old(state).s.items@;
    let ghost best0 = old(state).s_best.value as int;
    let ghost mw = max_weight as int;
    let (flip_prime, s_prime) = match picked {
        Some(p) => {
            proof {
                if exists|ii: int|
                    0 <= ii < ks.len() && spec_aspires(ks, method, bits, ii, best0, mw) {
                } else {
                    assert forall|ii: int| 0 <= ii < ks.len() implies !spec_aspires(
                        ks,
                        method,
                        bits,
                        ii,
                        best0,
                        mw,
                    ) by {
                        if spec_aspires(ks, method, bits, ii, best0, mw) {
                            assert(exists|jj: int|
                                0 <= jj < ks.len() && spec_aspires(ks, method, bits, jj, best0, mw));
                        }
                    }
                    if exists|ii: int| 0 <= ii < ks.len() && old(state).tabu@[ii] == 0 {
                    } else {
                        assert forall|ii: int| 0 <= ii < ks.len() implies (#[trigger] old(
                            state).tabu@[ii]) != 0 by {
                            if old(state).tabu@[ii] == 0 {
                                assert(exists|jj: int|
                                    0 <= jj < ks.len() && old(state).tabu@[jj] == 0);
                            }
                        }
                        assert(false);
                    }
                }
                assert(old(state).tabu@[p.0 as int] == 0 || spec_aspires(
                    ks,
                    method,
                    bits,
                    p.0 as int,
                    best0,
                    mw,
                ) || (forall|j: int|
                    0 <= j < ks.len() ==> (#[trigger] old(state).tabu@[j]) != 0));
                if (forall|j: int| 0 <= j < ks.len() ==> (#[trigger] old(state).tabu@[j]) != 0) && (
                forall|j: int| 0 <= j < ks.len() ==> !spec_aspires(ks, method, bits, j, best0, mw)) {
                    assert(false);
                }
            }
            p
        },
        None => {
            // every move is tabu: force the one closest to expiry
            proof {
                if exists|ii: int|
                    0 <= ii < ks.len() && spec_aspires(ks, method, bits, ii, best0, mw) {
                    assert(false);
                }
                if exists|ii: int| 0 <= ii < ks.len() && old(state).tabu@[ii] == 0 {
                    assert(false);
                }
            }
            let n = knapsack.len();
            let mut best_i: usize = 0;
            let mut i: usize = 1;
            while i < n
                invariant
                    1 <= i <= n,
                    n == state.tabu.len(),
                    *state == *old(state),
                    best_i < i,
                    forall|j: int|
                        0 <= j < i ==> state.tabu@[best_i as int] <= (#[trigger] state.tabu@[j]),
                decreases n - i,
            {
                if state.tabu[i] < state.tabu[best_i] {
                    best_i = i;
                }
                i = i + 1;
            }
            proof {
                assert forall|ii: int| 0 <= ii < ks.len() implies !spec_aspires(
                    ks,
                    method,
                    bits,
                    ii,
                    best0,
                    mw,
                ) by {
                    if spec_aspires(ks, method, bits, ii, best0, mw) {
                        assert(exists|jj: int|
                            0 <= jj < ks.len() && spec_aspires(ks, method, bits, jj, best0, mw));
                    }
                }
                assert forall|ii: int| 0 <= ii < ks.len() implies (#[trigger] old(
                    state).tabu@[ii]) != 0 by {
                    if old(state).tabu@[ii] == 0 {
                        assert(exists|jj: int| 0 <= jj < ks.len() && old(state).tabu@[jj] == 0);
                    }
                }
            }
            let forced = state.s.flip(knapsack, best_i);
            (best_i, forced)
        },
    };
    let dir = Direction::Maximize;
    let w_prime = s_prime.total_weight(knapsack);
    if dir.better(s_prime.value, state.s_best.value) && w_prime <= max_weight {
        state.s_best = s_prime.clone();
        state.idle = 0;
    } else {
        state.idle = state.idle + 1;
    }
    let n = state.tabu.len();
    let mut i: usize = 0;
    while i < n
        invariant
            i <= n,
            n == state.tabu.len(),
            n == knapsack@.len(),
            n == old(state).tabu@.len(),
            flip_prime < n,
            state.s.wf(knapsack@),
            state.s_best.wf(knapsack@),
            state.s.eval_method == state.s_best.eval_method,
            state.s.eval_method == old(state).s.eval_method,
            state.s == old(state).s,
            state.s_best.value >= old(state).s_best.value,
            state.idle == 0 || state.idle == old(state).idle + 1,
            forall|j: int|
                0 <= j < i ==> (#[trigger] state.tabu@[j]) as int == spec_aged(old(state).tabu@[j]),
            forall|j: int| i <= j < n ==> (#[trigger] state.tabu@[j]) == old(state).tabu@[j],
            (s_prime.value > old(state).s_best.value && w_prime <= max_weight)
                ==> state.s_best.items@ == s_prime.items@ && state.s_best.value == s_prime.value
                && state.idle == 0,
            !(s_prime.value > old(state).s_best.value && w_prime <= max_weight)
                ==> state.s_best.items@ == old(state).s_best.items@ && state.s_best.value == old(
                state).s_best.value && state.idle == old(state).idle + 1,
        decreases n - i,
    {
        let t = state.tabu[i];
        if t > 0 {
            state.tabu.set(i, t - 1);
        }
        i = i + 1;
    }
    state.tabu.set(flip_prime, tabu_memory);
    state.s = s_prime;
    proof {
        let fp = flip_prime as int;
        assert(state.tabu@[fp] == tabu_memory);
        assert(state.s.items@ == old(state).s.items@.update(fp, !old(state).s.items@[fp]));
        assert(w_prime as int == spec_total_weight(
            knapsack@,
            state.s.items@,
            knapsack@.len() as int,
        ));
        assert forall|j: int| 0 <= j < knapsack@.len() && j != fp implies (
        #[trigger] state.tabu@[j]) as int == spec_aged(old(state).tabu@[j]) by {}
    }
}

/// The whole tabu run from the greedy construction.  The result is a
/// well-formed candidate whose value is at least the greedy
/// construction's, so in particular at least zero.
pub fn run(knapsack: &Vec<Item>, params: WithPenalty, pparams: PParams) -> (r: Solution<
    WithPenalty,
>)
    requires
        wf_items(knapsack@),
        params.wf(),
        knapsack.len() >= 1,
        pparams.i_max != 0 || pparams.idle_max != 0,
        pparams.tabu_memory >= 1,
    ensures
        r.wf(knapsack@),
        r.eval_method == params,
        r.value >= 0,
        exists|ord: Seq<usize>|
            spec_is_value_order(knapsack@, ord) && r.value as int >= spec_eval_of(
                knapsack@,
                params,
                spec_greedy_bits(knapsack@, params, ord, knapsack@.len() as int),
            ),
{
    let max_weight = params.max_weight;
    let s = Solution::greedy(knapsack, params);
    let ghost ord = choose|ord: Seq<usize>|
        spec_is_value_order(knapsack@, ord) && s.items@ == spec_greedy_bits(
            knapsack@,
            params,
            ord,
            knapsack@.len() as int,
        );
    let s_best = s.clone();
    let tabu: TabuList = vec![0; knapsack.len()];
    let mut state = TabuState { s, s_best, tabu, idle: 0 };
    proof {
        lemma_solution_value_bounds(knapsack@, &state.s_best);
    }
    let mut i: usize = 0;
    loop
        invariant_except_break
            pparams.i_max != 0 ==> i <= pparams.i_max,
            pparams.idle_max != 0 ==> state.idle < pparams.idle_max,
            wf_items(knapsack@),
            params.wf(),
            knapsack.len() >= 1,
            pparams.i_max != 0 || pparams.idle_max != 0,
            pparams.tabu_memory >= 1,
            state.wf(knapsack@),
            state.s.eval_method == params,
            state.s_best.value >= 0,
            state.s_best.value <= MAX_TOTAL,
            spec_is_value_order(knapsack@, ord),
            state.s_best.value as int >= spec_eval_of(
                knapsack@,
                params,
                spec_greedy_bits(knapsack@, params, ord, knapsack@.len() as int),
            ),
        ensures
            state.wf(knapsack@),
            state.s_best.eval_method == params,
            state.s_best.value >= 0,
            spec_is_value_order(knapsack@, ord),
            state.s_best.value as int >= spec_eval_of(
                knapsack@,
                params,
                spec_greedy_bits(knapsack@, params, ord, knapsack@.len() as int),
            ),
        decreases
            (if pparams.i_max != 0 { pparams.i_max - i } else { 0 }),
            MAX_TOTAL - state.s_best.value,
            (if pparams.idle_max != 0 { pparams.idle_max - state.idle } else { 0 }),
    {
        if state.idle == usize::MAX {
            break ;
        }
        tabu_step(knapsack, max_weight, pparams.tabu_memory as u64, &mut state);
        proof {
            lemma_solution_value_bounds(knapsack@, &state.s_best);
        }
        if pparams.idle_max != 0 && state.idle >= pparams.idle_max {
            break ;
        }
        if pparams.i_max != 0 {
            if i >= pparams.i_max {
                break ;
            }
            i = i + 1;
        }
    }
    state.s_best
}

} // verus!
