use exs::knapsack::read_knapsack;
use exs::knapsack::ByTotalValue;
use exs::knapsack::EvaluationMethod;
use exs::knapsack::InputError;
use exs::knapsack::Item;
use exs::knapsack::Solution;
use exs::knapsack::WithPenalty;
use exs::knapsack::MAX_ITEMS;

fn sample_items() -> Vec<Item> {
    vec![
        Item { value: 10, weight: 5 },
        Item { value: 6, weight: 3 },
        Item { value: 4, weight: 2 },
    ]
}

fn penalty(p: u64) -> WithPenalty {
    WithPenalty { max_weight: 5, penalty: p }
}

#[test]
fn read_knapsack_parses_pairs() {
    let nums: Vec<u64> = vec![3, 5, 10, 5, 6, 3, 4, 2];
    let (capacity, items) = read_knapsack(&nums).unwrap();
    assert_eq!(capacity, 5);
    assert_eq!(items.len(), 3);
    assert_eq!(items[0], Item { value: 10, weight: 5 });
    assert_eq!(items[1], Item { value: 6, weight: 3 });
    assert_eq!(items[2], Item { value: 4, weight: 2 });
}

#[test]
fn read_knapsack_ignores_trailing_number() {
    let nums: Vec<u64> = vec![1, 9, 7, 4, 99];
    let (capacity, items) = read_knapsack(&nums).unwrap();
    assert_eq!(capacity, 9);
    assert_eq!(items.len(), 1);
    assert_eq!(items[0], Item { value: 7, weight: 4 });
}

#[test]
fn read_knapsack_too_few_numbers() {
    let nums: Vec<u64> = vec![7];
    assert_eq!(read_knapsack(&nums), Err(InputError::TooFewNumbers));
}

#[test]
fn read_knapsack_capacity_too_large() {
    let nums: Vec<u64> = vec![0, u64::MAX];
    assert_eq!(read_knapsack(&nums), Err(InputError::CapacityTooLarge));
}

#[test]
fn read_knapsack_item_too_large() {
    let nums: Vec<u64> = vec![1, 5, u64::MAX, 1];
    assert_eq!(read_knapsack(&nums), Err(InputError::ItemTooLarge));
}

#[test]
fn read_knapsack_too_many_items() {
    let nums: Vec<u64> = vec![0; 2 * MAX_ITEMS + 4];
    assert_eq!(read_knapsack(&nums), Err(InputError::TooManyItems));
}

#[test]
fn penalty_evaluation_formula() {
    let m = penalty(3);
    // under capacity: plain total value
    assert_eq!(m.evaluate_solution(10, 5), 10);
    // over capacity by 3: 16 - 3 * 3
    assert_eq!(m.evaluate_solution(16, 8), 7);
    // deep over capacity goes negative
    assert_eq!(m.evaluate_solution(1, 105), 1 - 300);
}

#[test]
fn strict_evaluation_ignores_weight() {
    let m = ByTotalValue { max_weight: 5 };
    assert_eq!(m.evaluate_solution(16, 800), 16);
    assert_eq!(m.max_weight(), 5);
}

#[test]
fn empty_solution_is_zero() {
    let items = sample_items();
    let s = Solution::empty(&items, penalty(3));
    assert_eq!(s.value, 0);
    assert_eq!(s.total_value(&items), 0);
    assert_eq!(s.total_weight(&items), 0);
    assert_eq!(s.items, vec![false, false, false]);
}

#[test]
fn new_solution_derives_value() {
    let items = sample_items();
    let s = Solution::new(&items, vec![true, true, false], penalty(3));
    assert_eq!(s.total_value(&items), 16);
    assert_eq!(s.total_weight(&items), 8);
    // 16 - 3 * (8 - 5)
    assert_eq!(s.value, 7);
}

#[test]
fn evaluation_is_deterministic() {
    // evaluating an unchanged candidate twice yields the same value
    let items = sample_items();
    let m = penalty(3);
    let s = Solution::new(&items, vec![true, false, true], m);
    let first = m.evaluate_solution(s.total_value(&items), s.total_weight(&items));
    let second = m.evaluate_solution(s.total_value(&items), s.total_weight(&items));
    assert_eq!(first, second);
    assert_eq!(first, s.value);
}

#[test]
fn flip_changes_exactly_one_position() {
    let items = sample_items();
    let s = Solution::new(&items, vec![true, false, false], penalty(3));
    let t = s.flip(&items, 1);
    assert_eq!(t.items, vec![true, true, false]);
    assert_eq!(s.items, vec![true, false, false]);
    // the reported value equals a from-scratch evaluation
    let rebuilt = Solution::new(&items, t.items.clone(), penalty(3));
    assert_eq!(t.value, rebuilt.value);
    // flipping back restores the source
    let back = t.flip(&items, 1);
    assert_eq!(back.items, s.items);
    assert_eq!(back.value, s.value);
}

#[test]
fn greedy_selects_only_first_item() {
    // the concrete scenario: items {(10,5),(6,3),(4,2)}, capacity 5,
    // positive penalty: greedy keeps only the most valuable item
    let items = sample_items();
    let s = Solution::greedy(&items, penalty(3));
    assert_eq!(s.items, vec![true, false, false]);
    assert_eq!(s.total_value(&items), 10);
    assert_eq!(s.total_weight(&items), 5);
    assert_eq!(s.value, 10);
}

#[test]
fn greedy_never_negative() {
    // greedy feasibility on a hostile instance: nothing fits, value stays >= 0
    let items = vec![
        Item { value: 1, weight: 100 },
        Item { value: 2, weight: 200 },
    ];
    let m = WithPenalty { max_weight: 100, penalty: 10 };
    let s = Solution::greedy(&items, m);
    assert!(s.value >= 0);
}

#[test]
fn sorted_by_value_desc_orders_items() {
    let items = vec![
        Item { value: 4, weight: 1 },
        Item { value: 10, weight: 1 },
        Item { value: 4, weight: 2 },
        Item { value: 7, weight: 1 },
    ];
    let order = exs::knapsack::sorted_by_value_desc(&items);
    // descending by value, equal values by ascending index
    assert_eq!(order, vec![1, 3, 0, 2]);
}

#[test]
fn best_neighbour_prefers_best_free_flip() {
    let items = sample_items();
    let s = Solution::empty(&items, penalty(3));
    let taboos = vec![false, false, false];
    // a very high incumbent: no aspiration possible
    let r = s.best_neighbour(&items, &taboos, 1000).unwrap();
    // the best single inclusion is item 0 (value 10)
    assert_eq!(r.items, vec![true, false, false]);
    assert_eq!(r.value, 10);
}

#[test]
fn best_neighbour_skips_taboo_moves() {
    let items = sample_items();
    let s = Solution::empty(&items, penalty(3));
    let taboos = vec![true, false, false];
    let r = s.best_neighbour(&items, &taboos, 1000).unwrap();
    // item 0 is taboo, so item 1 (value 6) wins
    assert_eq!(r.items, vec![false, true, false]);
    assert_eq!(r.value, 6);
}

#[test]
fn best_neighbour_aspiration_overrides_taboo() {
    let items = sample_items();
    let s = Solution::empty(&items, penalty(3));
    let taboos = vec![true, true, true];
    // incumbent 5: flipping item 0 (value 10) beats it despite the taboo
    let r = s.best_neighbour(&items, &taboos, 5).unwrap();
    assert_eq!(r.items, vec![true, false, false]);
}

#[test]
fn best_neighbour_all_taboo_is_none() {
    let items = sample_items();
    let s = Solution::empty(&items, penalty(3));
    let taboos = vec![true, true, true];
    assert!(s.best_neighbour(&items, &taboos, 1000).is_none());
}

#[test]
fn popcount_never_exceeds_item_count() {
    // encoding invariant on concrete candidates
    let items = sample_items();
    let s = Solution::new(&items, vec![true, true, true], penalty(3));
    let count = s.items.iter().filter(|b| **b).count();
    assert!(count <= items.len());
    assert_eq!(s.items.len(), items.len());
}
