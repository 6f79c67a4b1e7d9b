//! The 0/1 knapsack problem: items with value and weight, a capacity, and
//! candidate solutions encoded as fixed-length bit-vectors.  Two evaluation
//! policies share one interface: a soft penalty for excess weight, and a
//! plain total-value objective.

use vstd::prelude::*;

verus! {

pub use crate::graph::Weight as UWeight;

/// Evaluation results may go negative under the penalty policy.
pub type Weight = i64;

/// Largest item count a well-formed instance may hold.
pub const MAX_ITEMS: usize = 0x100000;

/// Largest value a well-formed item may carry.
pub const MAX_ITEM_VALUE: u64 = 0x100000;

/// Largest weight a well-formed item may carry.
pub const MAX_ITEM_WEIGHT: u64 = 0x100000;

/// Largest penalty coefficient a well-formed policy may carry.
pub const MAX_PENALTY: u64 = 0x100000;

/// Largest total value or total weight of a well-formed instance:
/// `MAX_ITEMS` times the largest per-item field.
pub const MAX_TOTAL: u64 = 0x10000000000;

/// One knapsack item.
#[derive(Debug, Clone, Copy, PartialEq, Eq, Structural)]
pub struct Item {
    pub weight: UWeight,
    pub value: UWeight,
}

/// A bounded instance: not too many items, each with bounded fields.
pub open spec fn wf_items(items: Seq<Item>) -> bool {
    &&& items.len() <= MAX_ITEMS
    &&& forall|i: int|
        0 <= i < items.len() ==> (#[trigger] items[i]).value <= MAX_ITEM_VALUE
            && items[i].weight <= MAX_ITEM_WEIGHT
}

/// Total value of the included items among the first `k`.
pub open spec fn spec_total_value(items: Seq<Item>, bits: Seq<bool>, k: int) -> int
    decreases k,
{
    if k <= 0 {
        0
    } else {
        spec_total_value(items, bits, k - 1) + (if bits[k - 1] {
            items[k - 1].value as int
        } else {
            0
        })
    }
}

/// Total weight of the included items among the first `k`.
pub open spec fn spec_total_weight(items: Seq<Item>, bits: Seq<bool>, k: int) -> int
    decreases k,
{
    if k <= 0 {
        0
    } else {
        spec_total_weight(items, bits, k - 1) + (if bits[k - 1] {
            items[k - 1].weight as int
        } else {
            0
        })
    }
}

/// Totals over a bounded instance are nonnegative and bounded.
pub proof fn lemma_totals_bound(items: Seq<Item>, bits: Seq<bool>, k: int)
    requires
        wf_items(items),
        0 <= k <= items.len(),
    ensures
        0 <= spec_total_value(items, bits, k) <= k * MAX_ITEM_VALUE <= MAX_TOTAL,
        0 <= spec_total_weight(items, bits, k) <= k * MAX_ITEM_WEIGHT <= MAX_TOTAL,
    decreases k,
{
    if k > 0 {
        lemma_totals_bound(items, bits, k - 1);
        assert((k - 1) * MAX_ITEM_VALUE + MAX_ITEM_VALUE == k * MAX_ITEM_VALUE) by (nonlinear_arith);
        assert((k - 1) * MAX_ITEM_WEIGHT + MAX_ITEM_WEIGHT == k * MAX_ITEM_WEIGHT)
            by (nonlinear_arith);
    }
    assert(k * MAX_ITEM_VALUE <= MAX_ITEMS * MAX_ITEM_VALUE) by (nonlinear_arith)
        requires
            0 <= k <= MAX_ITEMS,
    ;
    assert(k * MAX_ITEM_WEIGHT <= MAX_ITEMS * MAX_ITEM_WEIGHT) by (nonlinear_arith)
        requires
            0 <= k <= MAX_ITEMS,
    ;
}

/// How a candidate's totals turn into its cached objective value.
pub trait EvaluationMethod: Sized + Clone + Copy {
    /// The value the policy assigns to the given totals.
    spec fn spec_evaluate(&self, total_value: int, total_weight: int) -> int;

    /// The capacity the policy was built with.
    spec fn spec_max_weight(&self) -> int;

    /// Bounded policy parameters.
    spec fn wf(&self) -> bool;

    /// Evaluating bounded totals stays well inside `i64`.
    proof fn lemma_eval_bounds(&self, total_value: int, total_weight: int)
        requires
            self.wf(),
            0 <= total_value <= MAX_TOTAL,
            0 <= total_weight <= MAX_TOTAL,
        ensures
            -(MAX_PENALTY * MAX_TOTAL) <= self.spec_evaluate(total_value, total_weight)
                <= MAX_TOTAL,
            0 <= self.spec_max_weight() <= MAX_TOTAL,
    ;

    /// The empty selection evaluates to zero.
    proof fn lemma_eval_empty(&self)
        requires
            self.wf(),
        ensures
            self.spec_evaluate(0, 0) == 0,
    ;

    fn evaluate_solution(&self, total_value: UWeight, total_weight: UWeight) -> (r: Weight)
        requires
            self.wf(),
            total_value <= MAX_TOTAL,
            total_weight <= MAX_TOTAL,
        ensures
            r as int == self.spec_evaluate(total_value as int, total_weight as int),
    ;

    fn max_weight(&self) -> (r: UWeight)
        requires
            self.wf(),
        ensures
            r as int == self.spec_max_weight(),
    ;
}

/// Soft-constraint policy: total value minus `penalty` times the weight
/// excess over the capacity, so over-capacity candidates stay representable.
#[derive(Debug, Clone, Copy)]
pub struct WithPenalty {
    pub max_weight: UWeight,
    pub penalty: UWeight,
}

impl EvaluationMethod for WithPenalty {
    open spec fn spec_evaluate(&self, total_value: int, total_weight: int) -> int {
        total_value - self.penalty * (if total_weight > self.max_weight {
            total_weight - self.max_weight
        } else {
            0
        })
    }

    open spec fn spec_max_weight(&self) -> int {
        self.max_weight as int
    }

    open spec fn wf(&self) -> bool {
        self.penalty <= MAX_PENALTY && self.max_weight <= MAX_TOTAL
    }

    proof fn lemma_eval_bounds(&self, total_value: int, total_weight: int) {
        let excess: int = if total_weight > self.max_weight {
            total_weight - self.max_weight
        } else {
            0
        };
        assert(0 <= self.penalty * excess <= MAX_PENALTY * MAX_TOTAL) by (nonlinear_arith)
            requires
                0 <= excess <= MAX_TOTAL,
                0 <= (self.penalty as int) <= MAX_PENALTY,
        ;
    }

    proof fn lemma_eval_empty(&self) {
    }

    fn evaluate_solution(&self, total_value: UWeight, total_weight: UWeight) -> (r: Weight) {
        let excess: u64 = if total_weight > self.max_weight {
            total_weight - self.max_weight
        } else {
            0
        };
        proof {
            assert(0 <= (self.penalty as int) * (excess as int) <= MAX_PENALTY * MAX_TOTAL)
                by (nonlinear_arith)
                requires
                    0 <= (excess as int) <= MAX_TOTAL,
                    0 <= (self.penalty as int) <= MAX_PENALTY,
            ;
        }
        let pen = self.penalty * excess;
        (total_value as Weight) - (pen as Weight)
    }

    fn max_weight(&self) -> (r: UWeight) {
        self.max_weight
    }
}

/// Hard-feasibility policy: the value is the plain total value; callers
/// enforce the capacity themselves.
#[derive(Debug, Clone, Copy)]
pub struct ByTotalValue {
    pub max_weight: UWeight,
}

impl EvaluationMethod for ByTotalValue {
    open spec fn spec_evaluate(&self, total_value: int, total_weight: int) -> int {
        total_value
    }

    open spec fn spec_max_weight(&self) -> int {
        self.max_weight as int
    }

    open spec fn wf(&self) -> bool {
        self.max_weight <= MAX_TOTAL
    }

    proof fn lemma_eval_bounds(&self, total_value: int, total_weight: int) {
        assert(0 <= MAX_PENALTY * MAX_TOTAL) by (nonlinear_arith);
    }

    proof fn lemma_eval_empty(&self) {
    }

    fn evaluate_solution(&self, total_value: UWeight, total_weight: UWeight) -> (r: Weight) {
        total_value as Weight
    }

    fn max_weight(&self) -> (r: UWeight) {
        self.max_weight
    }
}

/// One knapsack candidate: an inclusion bit per item and the cached value
/// its policy assigns.  Moves never mutate in place; every move returns a
/// fresh candidate with a freshly derived value.
#[derive(Debug)]
pub struct Solution<E: EvaluationMethod> {
    pub items: Vec<bool>,
    pub value: Weight,
    pub eval_method: E,
}

impl<E: EvaluationMethod> Clone for Solution<E> {
    fn clone(&self) -> (r: Self)
        ensures
            r.items@ == self.items@,
            r.value == self.value,
            r.eval_method == self.eval_method,
    {
        let items = self.items.clone();
        proof {
            assert(items@ =~= self.items@);
        }
        Solution { items, value: self.value, eval_method: self.eval_method }
    }
}

impl<E: EvaluationMethod> Solution<E> {
    /// The candidate's cached value agrees with a from-scratch evaluation
    /// of its bits over the given instance.
    pub open spec fn wf(&self, knapsack: Seq<Item>) -> bool {
        &&& self.items.len() == knapsack.len()
        &&& wf_items(knapsack)
        &&& self.eval_method.wf()
        &&& self.value as int == self.eval_method.spec_evaluate(
            spec_total_value(knapsack, self.items@, knapsack.len() as int),
            spec_total_weight(knapsack, self.items@, knapsack.len() as int),
        )
    }

    /// Total value of the included items, recomputed from scratch.
    pub fn total_value(&self, knapsack: &Vec<Item>) -> (r: UWeight)
        requires
            self.items.len() == knapsack.len(),
            wf_items(knapsack@),
        ensures
            r as int == spec_total_value(knapsack@, self.items@, knapsack.len() as int),
            r <= MAX_TOTAL,
    {
        let n = knapsack.len();
        let mut acc: u64 = 0;
        let mut i: usize = 0;
        while i < n
            invariant
                i <= n,
                n == knapsack.len(),
                self.items.len() == n,
                wf_items(knapsack@),
                acc as int == spec_total_value(knapsack@, self.items@, i as int),
            decreases n - i,
        {
            proof {
                lemma_totals_bound(knapsack@, self.items@, i as int);
                lemma_totals_bound(knapsack@, self.items@, i + 1);
            }
            if self.items[i] {
                acc = acc + knapsack[i].value;
            }
            i = i + 1;
        }
        proof {
            lemma_totals_bound(knapsack@, self.items@, n as int);
        }
        acc
    }

    /// Total weight of the included items, recomputed from scratch.
    pub fn total_weight(&self, knapsack: &Vec<Item>) -> (r: UWeight)
        requires
            self.items.len() == knapsack.len(),
            wf_items(knapsack@),
        ensures
            r as int == spec_total_weight(knapsack@, self.items@, knapsack.len() as int),
            r <= MAX_TOTAL,
    {
        let n = knapsack.len();
        let mut acc: u64 = 0;
        let mut i: usize = 0;
        while i < n
            invariant
                i <= n,
                n == knapsack.len(),
                self.items.len() == n,
                wf_items(knapsack@),
                acc as int == spec_total_weight(knapsack@, self.items@, i as int),
            decreases n - i,
        {
            proof {
                lemma_totals_bound(knapsack@, self.items@, i as int);
                lemma_totals_bound(knapsack@, self.items@, i + 1);
            }
            if self.items[i] {
                acc = acc + knapsack[i].weight;
            }
            i = i + 1;
        }
        proof {
            lemma_totals_bound(knapsack@, self.items@, n as int);
        }
        acc
    }

    /// Wraps an encoding and derives its value with the given policy.
    pub fn new(knapsack: &Vec<Item>, items: Vec<bool>, eval_method: E) -> (r: Self)
        requires
            items.len() == knapsack.len(),
            wf_items(knapsack@),
            eval_method.wf(),
        ensures
            r.wf(knapsack@),
            r.items@ == items@,
            r.eval_method == eval_method,
    {
        let mut this = Solution { items, value: 0, eval_method };
        let tv = this.total_value(knapsack);
        let tw = this.total_weight(knapsack);
        this.value = this.eval_method.evaluate_solution(tv, tw);
        this
    }

    /// The all-excluded candidate; its value is zero under any policy.
    pub fn empty(knapsack: &Vec<Item>, eval_method: E) -> (r: Self)
        requires
            wf_items(knapsack@),
            eval_method.wf(),
        ensures
            r.wf(knapsack@),
            r.items@.len() == knapsack.len(),
            forall|i: int| 0 <= i < r.items@.len() ==> !(#[trigger] r.items@[i]),
            r.value == 0,
            r.eval_method == eval_method,
    {
        let bits: Vec<bool> = vec![false; knapsack.len()];
        let r = Self::new(knapsack, bits, eval_method);
        proof {
            lemma_total_zero_of_none(knapsack@, r.items@, knapsack.len() as int);
            r.eval_method.lemma_eval_empty();
        }
        r
    }

    /// Returns a new candidate with exactly the bit at `index` toggled and
    /// a freshly derived value; the receiver is untouched.
    pub fn flip(&self, knapsack: &Vec<Item>, index: usize) -> (r: Self)
        requires
            self.items.len() == knapsack.len(),
            wf_items(knapsack@),
            self.eval_method.wf(),
            index < self.items.len(),
        ensures
            r.wf(knapsack@),
            r.items@ == self.items@.update(index as int, !self.items@[index as int]),
            r.eval_method == self.eval_method,
    {
        let mut flipped = self.items.clone();
        let val = !flipped[index];
        flipped.set(index, val);
        proof {
            assert(flipped@ =~= self.items@.update(index as int, !self.items@[index as int]));
        }
        Self::new(knapsack, flipped, self.eval_method)
    }
}

/// A well-formed candidate's cached value is bounded.
pub proof fn lemma_solution_value_bounds<E: EvaluationMethod>(items: Seq<Item>, s: &Solution<E>)
    requires
        s.wf(items),
    ensures
        -(MAX_PENALTY * MAX_TOTAL) <= s.value <= MAX_TOTAL,
{
    lemma_totals_bound(items, s.items@, items.len() as int);
    s.eval_method.lemma_eval_bounds(
        spec_total_value(items, s.items@, items.len() as int),
        spec_total_weight(items, s.items@, items.len() as int),
    );
}

/// The evaluation a policy assigns to a full selection.
pub open spec fn spec_eval_of<E: EvaluationMethod>(items: Seq<Item>, method: E, bits: Seq<bool>) -> int {
    method.spec_evaluate(
        spec_total_value(items, bits, items.len() as int),
        spec_total_weight(items, bits, items.len() as int),
    )
}

/// The value of the candidate reached from `bits` by toggling bit `i`.
pub open spec fn spec_flip_value<E: EvaluationMethod>(
    items: Seq<Item>,
    method: E,
    bits: Seq<bool>,
    i: int,
) -> int {
    spec_eval_of(items, method, bits.update(i, !bits[i]))
}

/// The total weight of the candidate reached from `bits` by toggling bit `i`.
pub open spec fn spec_flip_weight(items: Seq<Item>, bits: Seq<bool>, i: int) -> int {
    spec_total_weight(items, bits.update(i, !bits[i]), items.len() as int)
}

/// One greedy step: tentatively include item `i`, and keep the inclusion
/// exactly when the value does not decrease.
pub open spec fn spec_include_step<E: EvaluationMethod>(
    items: Seq<Item>,
    method: E,
    bits: Seq<bool>,
    i: int,
) -> Seq<bool> {
    let with = bits.update(i, true);
    if spec_eval_of(items, method, with) >= spec_eval_of(items, method, bits) {
        with
    } else {
        bits
    }
}

/// The selection after the first `k` greedy steps over `order`, starting
/// from the empty selection.
pub open spec fn spec_greedy_bits<E: EvaluationMethod>(
    items: Seq<Item>,
    method: E,
    order: Seq<usize>,
    k: int,
) -> Seq<bool>
    decreases k,
{
    if k <= 0 {
        Seq::new(items.len(), |i: int| false)
    } else {
        spec_include_step(
            items,
            method,
            spec_greedy_bits(items, method, order, k - 1),
            order[k - 1] as int,
        )
    }
}

/// Which of two distinct items the greedy pass considers first: the more
/// valuable one, and among equal values the one with the lower index.
pub open spec fn spec_comes_before(items: Seq<Item>, a: int, b: int) -> bool {
    items[a].value > items[b].value || (items[a].value == items[b].value && a < b)
}

/// A processing order for the greedy pass: every item index exactly once,
/// descending by item value, ties broken by index.
pub open spec fn spec_is_value_order(items: Seq<Item>, order: Seq<usize>) -> bool {
    &&& order.len() == items.len()
    &&& forall|k: int| 0 <= k < order.len() ==> (#[trigger] order[k]) < items.len()
    &&& forall|k1: int, k2: int|
        0 <= k1 < k2 < order.len() ==> spec_comes_before(items, order[k1] as int, order[k2] as int)
}

/// After `k` greedy steps the evaluation is still at least zero: the pass
/// starts from the empty selection, whose value is zero, and a step only
/// keeps an inclusion that does not decrease the value.
pub proof fn lemma_greedy_value_nonneg<E: EvaluationMethod>(
    items: Seq<Item>,
    method: E,
    order: Seq<usize>,
    k: int,
)
    requires
        method.wf(),
        0 <= k,
    ensures
        spec_eval_of(items, method, spec_greedy_bits(items, method, order, k)) >= 0,
    decreases k,
{
    if k == 0 {
        let bits = spec_greedy_bits(items, method, order, 0);
        lemma_total_zero_of_none(items, bits, items.len() as int);
        method.lemma_eval_empty();
    } else {
        lemma_greedy_value_nonneg(items, method, order, k - 1);
    }
}

/// Greedy feasibility: under the penalty policy, when the capacity is at
/// least the weight of the lightest item, the greedy construction never
/// yields a negative value.
pub proof fn lemma_greedy_feasibility(
    items: Seq<Item>,
    method: WithPenalty,
    order: Seq<usize>,
    lightest: int,
)
    requires
        wf_items(items),
        method.wf(),
        spec_is_value_order(items, order),
        0 <= lightest < items.len(),
        forall|i: int|
            0 <= i < items.len() ==> items[lightest].weight <= (#[trigger] items[i]).weight,
        method.spec_max_weight() >= items[lightest].weight,
    ensures
        spec_eval_of(
            items,
            method,
            spec_greedy_bits(items, method, order, items.len() as int),
        ) >= 0,
{
    lemma_greedy_value_nonneg(items, method, order, items.len() as int);
}

/// Whether the greedy pass considers item `a` before item `b`.
pub fn comes_before(knapsack: &Vec<Item>, a: usize, b: usize) -> (r: bool)
    requires
        a < knapsack.len(),
        b < knapsack.len(),
    ensures
        r == spec_comes_before(knapsack@, a as int, b as int),
{
    knapsack[a].value > knapsack[b].value || (knapsack[a].value == knapsack[b].value && a < b)
}

/// Sorts the item indices for the greedy pass: descending by value, ties
/// broken by ascending index.
pub fn sorted_by_value_desc(knapsack: &Vec<Item>) -> (r: Vec<usize>)
    ensures
        spec_is_value_order(knapsack@, r@),
{
    let n = knapsack.len();
    let mut r: Vec<usize> = Vec::new();
    let mut elem: usize = 0;
    while elem < n
        invariant
            elem <= n,
            n == knapsack.len(),
            r.len() == elem,
            forall|k: int| 0 <= k < r.len() ==> (#[trigger] r[k]) < elem,
            forall|k1: int, k2: int|
                0 <= k1 < k2 < r.len() ==> spec_comes_before(knapsack@, r[k1] as int, r[k2] as int),
        decreases n - elem,
    {
        let mut pos: usize = 0;
        while pos < r.len() && comes_before(knapsack, r[pos], elem)
            invariant
                pos <= r.len(),
                elem < n,
                n == knapsack.len(),
                r.len() == elem,
                forall|k: int| 0 <= k < r.len() ==> (#[trigger] r[k]) < elem,
                forall|k1: int, k2: int|
                    0 <= k1 < k2 < r.len() ==> spec_comes_before(
                        knapsack@,
                        r[k1] as int,
                        r[k2] as int,
                    ),
                forall|p: int| 0 <= p < pos ==> spec_comes_before(knapsack@, r[p] as int, elem as int),
            decreases r.len() - pos,
        {
            pos = pos + 1;
        }
        proof {
            if pos < r.len() {
                assert(!spec_comes_before(knapsack@, r[pos as int] as int, elem as int));
            }
        }
        let ghost r_old = r@;
        r.insert(pos, elem);
        proof {
            assert forall|k1: int, k2: int| 0 <= k1 < k2 < r.len() implies spec_comes_before(
                knapsack@,
                r[k1] as int,
                r[k2] as int,
            ) by {
                if k2 < pos {
                    assert(r[k1] == r_old[k1] && r[k2] == r_old[k2]);
                } else if k1 < pos && k2 == pos {
                    assert(r[k1] == r_old[k1]);
                } else if k1 < pos {
                    assert(r[k1] == r_old[k1] && r[k2] == r_old[k2 - 1]);
                } else if k1 == pos {
                    assert(r[k2] == r_old[k2 - 1]);
                    assert(!spec_comes_before(knapsack@, r_old[pos as int] as int, elem as int));
                    assert(spec_comes_before(knapsack@, elem as int, r_old[pos as int] as int));
                    if k2 - 1 > pos {
                        assert(spec_comes_before(
                            knapsack@,
                            r_old[pos as int] as int,
                            r_old[k2 - 1] as int,
                        ));
                    }
                } else {
                    assert(r[k1] == r_old[k1 - 1] && r[k2] == r_old[k2 - 1]);
                }
            }
        }
        elem = elem + 1;
    }
    r
}

impl<E: EvaluationMethod> Solution<E> {
    /// Greedy construction: items in descending value order, each included
    /// once exactly when including it does not decrease the value.
    pub fn greedy(knapsack: &Vec<Item>, eval_method: E) -> (r: Self)
        requires
            wf_items(knapsack@),
            eval_method.wf(),
        ensures
            r.wf(knapsack@),
            r.eval_method == eval_method,
            r.value >= 0,
            exists|ord: Seq<usize>|
                spec_is_value_order(knapsack@, ord) && r.items@ == spec_greedy_bits(
                    knapsack@,
                    eval_method,
                    ord,
                    knapsack@.len() as int,
                ),
    {
        let order = sorted_by_value_desc(knapsack);
        let mut this = Self::empty(knapsack, eval_method);
        proof {
            assert(this.items@ =~= spec_greedy_bits(knapsack@, eval_method, order@, 0));
        }
        let n = order.len();
        let mut k: usize = 0;
        while k < n
            invariant
                k <= n,
                n == order.len(),
                n == knapsack.len(),
                wf_items(knapsack@),
                eval_method.wf(),
                spec_is_value_order(knapsack@, order@),
                this.wf(knapsack@),
                this.eval_method == eval_method,
                this.value >= 0,
                this.items@ == spec_greedy_bits(knapsack@, eval_method, order@, k as int),
                forall|idx: int|
                    0 <= idx < n && #[trigger] this.items@[idx] ==> exists|kk: int|
                        0 <= kk < k && order@[kk] == idx,
            decreases n - k,
        {
            let i = order[k];
            proof {
                if this.items@[i as int] {
                    let kk = choose|kk: int| 0 <= kk < k && order@[kk] == i as int;
                    assert(spec_comes_before(knapsack@, order@[kk] as int, order@[k as int] as int));
                }
            }
            let cand = this.flip(knapsack, i);
            let ghost old_this = this;
            if cand.value >= this.value {
                this = cand;
            }
            proof {
                assert(old_this.items@.update(i as int, true) =~= old_this.items@.update(
                    i as int,
                    !old_this.items@[i as int],
                ));
                assert(this.items@ == spec_include_step(
                    knapsack@,
                    eval_method,
                    old_this.items@,
                    i as int,
                ));
                assert forall|idx: int| 0 <= idx < n && #[trigger] this.items@[idx] implies exists|
                    kk: int,
                |
                    0 <= kk < k + 1 && order@[kk] == idx by {
                    if old_this.items@[idx] {
                        let kk = choose|kk: int| 0 <= kk < k && order@[kk] == idx;
                        assert(0 <= kk < k + 1 && order@[kk] == idx);
                    } else {
                        assert(order@[k as int] == idx);
                    }
                }
            }
            k = k + 1;
        }
        this
    }

    /// A uniformly random selection: each item is included with an
    /// independent coin flip.
    pub fn random(knapsack: &Vec<Item>, eval_method: E) -> (r: Self)
        requires
            wf_items(knapsack@),
            eval_method.wf(),
        ensures
            r.wf(knapsack@),
            r.eval_method == eval_method,
    {
        let n = knapsack.len();
        let mut bits: Vec<bool> = Vec::new();
        let mut i: usize = 0;
        while i < n
            invariant
                bits.len() == i,
                i <= n,
            decreases n - i,
        {
            let b = crate::rng::rand_below(2) == 1;
            bits.push(b);
            i = i + 1;
        }
        Self::new(knapsack, bits, eval_method)
    }

    /// Scans the whole single-flip neighbourhood.  A flip whose value
    /// strictly beats `best_value` is returned at once (aspiration), the
    /// earliest such flip first; otherwise the best non-tabu flip wins,
    /// earliest first among ties; with every flip tabu the result is
    /// `None`.
    pub fn best_neighbour(&self, knapsack: &Vec<Item>, taboos: &Vec<bool>, best_value: Weight) -> (r:
        Option<Self>)
        requires
            self.wf(knapsack@),
            taboos.len() == knapsack.len(),
        ensures
            (r matches Some(s) ==> s.wf(knapsack@) && s.eval_method == self.eval_method),
            (exists|i: int|
                0 <= i < knapsack@.len() && spec_flip_value(
                    knapsack@,
                    self.eval_method,
                    self.items@,
                    i,
                ) > best_value) ==> (r matches Some(s) && exists|i: int|
                0 <= i < knapsack@.len() && spec_flip_value(knapsack@, self.eval_method, self.items@, i)
                    > best_value && (forall|j: int|
                    0 <= j < i ==> spec_flip_value(knapsack@, self.eval_method, self.items@, j)
                        <= best_value) && s.items@ == self.items@.update(i, !self.items@[i])),
            (forall|i: int|
                0 <= i < knapsack@.len() ==> spec_flip_value(knapsack@, self.eval_method, self.items@, i)
                    <= best_value) && (exists|i: int| 0 <= i < knapsack@.len() && !taboos@[i]) ==> (
            r matches Some(s) && exists|i: int|
                0 <= i < knapsack@.len() && !taboos@[i] && s.items@ == self.items@.update(
                    i,
                    !self.items@[i],
                ) && (forall|j: int|
                    0 <= j < knapsack@.len() && !taboos@[j] ==> spec_flip_value(
                        knapsack@,
                        self.eval_method,
                        self.items@,
                        j,
                    ) <= spec_flip_value(knapsack@, self.eval_method, self.items@, i)) && (forall|
                    j: int,
                |
                    0 <= j < i && !taboos@[j] ==> spec_flip_value(
                        knapsack@,
                        self.eval_method,
                        self.items@,
                        j,
                    ) < spec_flip_value(knapsack@, self.eval_method, self.items@, i))),
            (forall|i: int|
                0 <= i < knapsack@.len() ==> spec_flip_value(knapsack@, self.eval_method, self.items@, i)
                    <= best_value) && (forall|i: int| 0 <= i < knapsack@.len() ==> taboos@[i]) ==> r
                is None,
    {
        let n = knapsack.len();
        let mut cur: Option<(usize, Self)> = None;
        let mut i: usize = 0;
        while i < n
            invariant
                i <= n,
                n == knapsack.len(),
                self.wf(knapsack@),
                taboos.len() == n,
                forall|j: int|
                    0 <= j < i ==> spec_flip_value(knapsack@, self.eval_method, self.items@, j)
                        <= best_value,
                (cur is None ==> forall|j: int| 0 <= j < i ==> taboos@[j]),
                (cur matches Some(p) ==> (p.0 as int) < i && !taboos@[p.0 as int] && p.1.wf(
                    knapsack@,
                ) && p.1.eval_method == self.eval_method && p.1.items@ == self.items@.update(
                    p.0 as int,
                    !self.items@[p.0 as int],
                ) && p.1.value as int == spec_flip_value(
                    knapsack@,
                    self.eval_method,
                    self.items@,
                    p.0 as int,
                ) && (forall|j: int|
                    0 <= j < i && !taboos@[j] ==> spec_flip_value(
                        knapsack@,
                        self.eval_method,
                        self.items@,
                        j,
                    ) <= p.1.value as int) && (forall|j: int|
                    0 <= j < p.0 as int && !taboos@[j] ==> spec_flip_value(
                        knapsack@,
                        self.eval_method,
                        self.items@,
                        j,
                    ) < p.1.value as int)),
            decreases n - i,
        {
            let s_prime = self.flip(knapsack, i);
            if s_prime.value > best_value {
                proof {
                    assert(spec_flip_value(knapsack@, self.eval_method, self.items@, i as int)
                        > best_value);
                }
                return Some(s_prime);
            }
            if !taboos[i] {
                let replace = match &cur {
                    None => true,
                    Some(p) => s_prime.value > p.1.value,
                };
                if replace {
                    cur = Some((i, s_prime));
                }
            }
            i = i + 1;
        }
        match cur {
            None => None,
            Some(p) => Some(p.1),
        }
    }
}

/// Why a knapsack input is rejected.
#[derive(Clone, Copy, Debug, PartialEq, Eq, Structural)]
pub enum InputError {
    /// Fewer than the two header numbers.
    TooFewNumbers,
    /// More item pairs than a well-formed instance may hold.
    TooManyItems,
    /// The capacity exceeds what a well-formed policy may carry.
    CapacityTooLarge,
    /// An item value or weight exceeds the per-item bound.
    ItemTooLarge,
}

/// Builds the capacity and item list from the numbers of an input file:
/// the second number is the capacity, and each following pair of numbers
/// is one `(value, weight)` item; a trailing unpaired number is ignored.
pub fn read_knapsack(nums: &Vec<u64>) -> (r: Result<(UWeight, Vec<Item>), InputError>)
    ensures
        nums@.len() < 2 ==> r == Result::<(UWeight, Vec<Item>), InputError>::Err(
            InputError::TooFewNumbers,
        ),
        nums@.len() >= 2 && (nums@.len() - 2) / 2 > MAX_ITEMS ==> r == Result::<
            (UWeight, Vec<Item>),
            InputError,
        >::Err(InputError::TooManyItems),
        nums@.len() >= 2 && (nums@.len() - 2) / 2 <= MAX_ITEMS && nums@[1] > MAX_TOTAL ==> r
            == Result::<(UWeight, Vec<Item>), InputError>::Err(InputError::CapacityTooLarge),
        nums@.len() >= 2 && (nums@.len() - 2) / 2 <= MAX_ITEMS && nums@[1] <= MAX_TOTAL && (exists|
            i: int,
        |
            0 <= i < (nums@.len() - 2) / 2 && (#[trigger] nums@[2 + 2 * i] > MAX_ITEM_VALUE
                || nums@[3 + 2 * i] > MAX_ITEM_WEIGHT)) ==> r == Result::<
            (UWeight, Vec<Item>),
            InputError,
        >::Err(InputError::ItemTooLarge),
        nums@.len() >= 2 && (nums@.len() - 2) / 2 <= MAX_ITEMS && nums@[1] <= MAX_TOTAL && (forall|
            i: int,
        |
            0 <= i < (nums@.len() - 2) / 2 ==> (#[trigger] nums@[2 + 2 * i] <= MAX_ITEM_VALUE
                && nums@[3 + 2 * i] <= MAX_ITEM_WEIGHT)) ==> (r matches Ok(p) && p.0 == nums@[1]
            && p.1.len() == (nums@.len() - 2) / 2 && (forall|i: int|
            0 <= i < p.1.len() ==> (#[trigger] p.1@[i]).value == nums@[2 + 2 * i]
                && p.1@[i].weight == nums@[3 + 2 * i]) && wf_items(p.1@)),
{
    if nums.len() < 2 {
        return Err(InputError::TooFewNumbers);
    }
    let count = (nums.len() - 2) / 2;
    if count > MAX_ITEMS {
        return Err(InputError::TooManyItems);
    }
    let capacity = nums[1];
    if capacity > MAX_TOTAL {
        return Err(InputError::CapacityTooLarge);
    }
    let mut items: Vec<Item> = Vec::new();
    let mut i: usize = 0;
    while i < count
        invariant
            i <= count,
            count == (nums@.len() - 2) / 2,
            count <= MAX_ITEMS,
            nums@.len() >= 2,
            nums@[1] <= MAX_TOTAL,
            items.len() == i,
            forall|j: int|
                0 <= j < i ==> (#[trigger] items@[j]).value == nums@[2 + 2 * j] && items@[j].weight
                    == nums@[3 + 2 * j] && items@[j].value <= MAX_ITEM_VALUE && items@[j].weight
                    <= MAX_ITEM_WEIGHT,
        decreases count - i,
    {
        proof {
            vstd::arithmetic::div_mod::lemma_fundamental_div_mod(nums@.len() - 2, 2);
            vstd::arithmetic::div_mod::lemma_remainder_lower(nums@.len() - 2, 2);
        }
        let value = nums[2 + 2 * i];
        let weight = nums[3 + 2 * i];
        if value > MAX_ITEM_VALUE || weight > MAX_ITEM_WEIGHT {
            return Err(InputError::ItemTooLarge);
        }
        items.push(Item { value, weight });
        i = i + 1;
    }
    proof {
        assert forall|ii: int| 0 <= ii < count implies #[trigger] nums@[2 + 2 * ii]
            <= MAX_ITEM_VALUE && nums@[3 + 2 * ii] <= MAX_ITEM_WEIGHT by {
            assert((items@[ii]).value == nums@[2 + 2 * ii]);
            assert((items@[ii]).weight == nums@[3 + 2 * ii]);
        }
    }
    Ok((capacity, items))
}

/// Number of included items among the first `k`.
pub open spec fn spec_popcount(bits: Seq<bool>, k: int) -> int
    decreases k,
{
    if k <= 0 {
        0
    } else {
        spec_popcount(bits, k - 1) + (if bits[k - 1] {
            1int
        } else {
            0int
        })
    }
}

/// Encoding invariant: a candidate never includes more items than there
/// are positions.
pub proof fn lemma_popcount_le_len(bits: Seq<bool>, k: int)
    requires
        0 <= k,
    ensures
        0 <= spec_popcount(bits, k) <= k,
    decreases k,
{
    if k > 0 {
        lemma_popcount_le_len(bits, k - 1);
    }
}

/// Evaluation determinism: two evaluations of one unchanged candidate
/// always agree; the value is a pure function of the candidate, the
/// instance and the policy.
pub proof fn lemma_evaluation_deterministic<E: EvaluationMethod>(
    items: Seq<Item>,
    method: E,
    bits: Seq<bool>,
    r1: int,
    r2: int,
)
    requires
        r1 == spec_eval_of(items, method, bits),
        r2 == spec_eval_of(items, method, bits),
    ensures
        r1 == r2,
{
}

/// Single-move locality: a well-formed candidate whose bits differ from
/// a source candidate's in exactly the flipped position carries exactly
/// the value a from-scratch evaluation of those bits gives.
pub proof fn lemma_flip_value_consistent<E: EvaluationMethod>(
    items: Seq<Item>,
    source: &Solution<E>,
    flipped: &Solution<E>,
    i: int,
)
    requires
        0 <= i < source.items@.len(),
        flipped.items@ == source.items@.update(i, !source.items@[i]),
        flipped.wf(items),
        flipped.eval_method == source.eval_method,
    ensures
        flipped.value as int == spec_flip_value(items, source.eval_method, source.items@, i),
        forall|j: int|
            0 <= j < source.items@.len() && j != i ==> #[trigger] flipped.items@[j]
                == source.items@[j],
        flipped.items@[i] == !source.items@[i],
{
}

/// A selection with no included item among the first `k` has zero totals.
pub proof fn lemma_total_zero_of_none(items: Seq<Item>, bits: Seq<bool>, k: int)
    requires
        forall|i: int| 0 <= i < k ==> !(#[trigger] bits[i]),
    ensures
        spec_total_value(items, bits, k) == 0,
        spec_total_weight(items, bits, k) == 0,
    decreases k,
{
    if k > 0 {
        lemma_total_zero_of_none(items, bits, k - 1);
    }
}

} // verus!
