use exs::anneal::Cooling;
use exs::knapsack::ByTotalValue;
use exs::knapsack::Item;
use exs::knapsack::WithPenalty;
use exs::order::Direction;
use exs::Graph;
use exs::GraphMat;

fn sample_items() -> Vec<Item> {
    vec![
        Item { value: 10, weight: 5 },
        Item { value: 6, weight: 3 },
        Item { value: 4, weight: 2 },
    ]
}

fn triangle() -> GraphMat {
    let mut g = GraphMat::default();
    exs::add_nodes(&mut g, 3);
    g.add_edge(0, 1, 1);
    g.add_edge(1, 2, 1);
    g.add_edge(2, 0, 1);
    g
}

fn halving() -> Cooling {
    Cooling { exponential: true, alpha_num: 1, alpha_den: 2 }
}

#[test]
fn direction_comparisons() {
    assert!(Direction::Maximize.better(3, 2));
    assert!(!Direction::Maximize.better(2, 3));
    assert!(Direction::Minimize.better(2, 3));
    assert!(!Direction::Minimize.better(3, 3));
    assert!(Direction::Maximize.better_eq(3, 3));
    assert!(Direction::Minimize.better_eq(3, 3));
}

#[test]
fn cooling_multiplicative_and_additive() {
    let c = halving();
    assert_eq!(c.next(10), 5);
    assert_eq!(c.next(1), 0);
    let a = Cooling { exponential: false, alpha_num: 3, alpha_den: 1 };
    assert_eq!(a.next(10), 7);
    assert_eq!(a.next(2), 0);
}

#[test]
fn metropolis_threshold_extremes() {
    // a zero-size worsening is always accepted: full probability
    assert_eq!(
        exs::anneal::metropolis_threshold(0, 1000),
        exs::anneal::PROB_SCALE
    );
    // a huge worsening at a tiny temperature is never accepted
    assert_eq!(exs::anneal::metropolis_threshold(i64::MAX / 2, 1), 0);
    // at temperature zero nothing is accepted
    assert_eq!(exs::anneal::metropolis_threshold(5, 0), 0);
}

#[test]
fn ksp_sa_finds_the_optimum() {
    let items = sample_items();
    let params = WithPenalty { max_weight: 5, penalty: 3 };
    let pparams = exs::ksp_sa::PParams {
        i_max: 5,
        epsilon: 1,
        alpha: halving(),
        temp0: 8,
        penalty: 3,
    };
    let best = exs::ksp_sa::run(&items, params, pparams);
    // 10 is both the greedy start and the global optimum here
    assert_eq!(best.value, 10);
}

#[test]
fn ksp_tabu_keeps_the_optimum() {
    let items = sample_items();
    let params = WithPenalty { max_weight: 5, penalty: 3 };
    let pparams = exs::ksp_tabu::PParams {
        i_max: 10,
        tabu_memory: 2,
        idle_max: 0,
        penalty: 3,
    };
    let best = exs::ksp_tabu::run(&items, params, pparams);
    assert_eq!(best.value, 10);
}

#[test]
fn ksp_tabu_idle_stop() {
    // i_max == 0 disables the turn budget: only idleness ends the run
    let items = sample_items();
    let params = WithPenalty { max_weight: 5, penalty: 3 };
    let pparams = exs::ksp_tabu::PParams {
        i_max: 0,
        tabu_memory: 2,
        idle_max: 3,
        penalty: 3,
    };
    let best = exs::ksp_tabu::run(&items, params, pparams);
    assert_eq!(best.value, 10);
}

#[test]
fn tsp_tabu_idle_stop() {
    // i_max == 0 disables the turn budget: only idleness ends the run
    let g = triangle();
    let params = exs::tsp_tabu::Params { i_max: 0, tabu_memory: 2, idle_max: 4 };
    let best = exs::tsp_tabu::run(&g, &params);
    assert_eq!(best.value, 3);
}

#[test]
fn ksp_grasp_idle_stop() {
    // i_max == 0 disables the turn budget: only idleness ends the run
    let items = sample_items();
    let params = WithPenalty { max_weight: 5, penalty: 3 };
    let pparams = exs::ksp_grasp::PParams {
        i_max: 0,
        idle_max: 4,
        a_num: 1,
        a_den: 2,
        penalty: 3,
    };
    let best = exs::ksp_grasp::run(&items, pparams, params);
    assert_eq!(best.value, 10);
}

#[test]
fn ksp_grasp_finds_the_optimum() {
    let items = sample_items();
    let params = WithPenalty { max_weight: 5, penalty: 3 };
    let pparams = exs::ksp_grasp::PParams {
        i_max: 5,
        idle_max: 0,
        a_num: 1,
        a_den: 2,
        penalty: 3,
    };
    let best = exs::ksp_grasp::run(&items, pparams, params);
    assert_eq!(best.value, 10);
    assert!(best.total_weight(&items) <= 5);
}

#[test]
fn ksp_ag_returns_a_candidate() {
    let items = sample_items();
    let params = ByTotalValue { max_weight: 5 };
    let ga = exs::ksp_ag::GAParams {
        population_size: 6,
        generations: 4,
        mutation_num: 1,
        mutation_den: 10,
    };
    let best = exs::ksp_ag::run(&items, params, ga).unwrap();
    assert_eq!(best.items.len(), 3);
    assert!(best.value >= 0);
    assert!(best.value <= 20);
}

#[test]
fn ksp_ag_degenerate_weights_fail() {
    // every item worthless: roulette selection has nothing to draw
    let items = vec![Item { value: 0, weight: 1 }, Item { value: 0, weight: 2 }];
    let params = ByTotalValue { max_weight: 5 };
    let ga = exs::ksp_ag::GAParams {
        population_size: 4,
        generations: 2,
        mutation_num: 0,
        mutation_den: 1,
    };
    let r = exs::ksp_ag::run(&items, params, ga);
    assert!(matches!(r, Err(exs::ksp_ag::GaError::AllWeightsZero)));
}

#[test]
fn tsp_sa_converges_on_triangle() {
    let g = triangle();
    let params = exs::tsp_sa::Params { i_max: 4, epsilon: 1, alpha: halving(), temp0: 8 };
    let best = exs::tsp_sa::run(&g, &params);
    assert_eq!(best.value, 3);
}

#[test]
fn tsp_tabu_converges_on_triangle() {
    let g = triangle();
    let params = exs::tsp_tabu::Params { i_max: 5, tabu_memory: 2, idle_max: 0 };
    let best = exs::tsp_tabu::run(&g, &params);
    assert_eq!(best.value, 3);
}

#[test]
fn tsp_tabu_entries_are_symmetric() {
    // the tabu entry for (a, b) is the entry for (b, a), always
    let mut t = exs::tsp_tabu::TabuList::new(4);
    assert_eq!(exs::tsp_tabu::tabu_get(&t, 1, 2), 0);
    exs::tsp_tabu::tabu_set(&mut t, 1, 2, 5);
    assert_eq!(exs::tsp_tabu::tabu_get(&t, 1, 2), 5);
    assert_eq!(exs::tsp_tabu::tabu_get(&t, 2, 1), 5);
    exs::tsp_tabu::tabu_set(&mut t, 3, 0, 9);
    assert_eq!(exs::tsp_tabu::tabu_get(&t, 0, 3), 9);
    assert_eq!(exs::tsp_tabu::tabu_get(&t, 3, 0), 9);
    // other moves untouched
    assert_eq!(exs::tsp_tabu::tabu_get(&t, 1, 2), 5);
    assert_eq!(exs::tsp_tabu::tabu_get(&t, 0, 1), 0);
}

#[test]
fn tsp_grasp_converges_on_triangle() {
    let g = triangle();
    let params = exs::tsp_grasp::Params { i_max: 3, idle_max: 0, a_num: 1, a_den: 2 };
    let best = exs::tsp_grasp::run(&g, &params);
    assert_eq!(best.value, 3);
}

#[test]
fn tsp_grasp_reaches_local_optimum_on_square() {
    let mut g = GraphMat::default();
    exs::add_nodes(&mut g, 4);
    g.add_edge(0, 1, 1);
    g.add_edge(0, 2, 5);
    g.add_edge(0, 3, 2);
    g.add_edge(1, 2, 2);
    g.add_edge(1, 3, 5);
    g.add_edge(2, 3, 1);
    let params = exs::tsp_grasp::Params { i_max: 4, idle_max: 0, a_num: 0, a_den: 1 };
    let best = exs::tsp_grasp::run(&g, &params);
    // the optimum cycle 0-1-2-3 has length 6
    assert_eq!(best.value, 6);
}

#[test]
fn tsp_ag_converges_on_triangle() {
    let g = triangle();
    let ga = exs::tsp_ag::GAParams {
        population_size: 4,
        generations: 3,
        mutation_num: 1,
        mutation_den: 10,
    };
    let best = exs::tsp_ag::run(&g, ga);
    assert_eq!(best.value, 3);
}

#[test]
fn tsp_ant_converges_on_triangle() {
    let g = triangle();
    let params = exs::tsp_ant::Params {
        i_max: 3,
        alpha: 1,
        beta: 2,
        evap_num: 1,
        evap_den: 10,
        tau0: 100,
        reinforcement: 10,
        ant_count: 2,
    };
    let best = exs::tsp_ant::run(&g, &params);
    assert_eq!(best.value, 3);
}

#[test]
fn pow_clamp_values() {
    assert_eq!(exs::tsp_ant::pow_clamp(3, 2), 9);
    assert_eq!(exs::tsp_ant::pow_clamp(7, 0), 1);
    assert_eq!(exs::tsp_ant::pow_clamp(0, 2), 1);
    // saturates at the cap
    assert_eq!(
        exs::tsp_ant::pow_clamp(0xffffffff, 4),
        exs::tsp_ant::WEIGHT_CAP
    );
}

#[test]
fn rcl_alpha_one_takes_everyone_min() {
    // minimization, alpha = 1: the RCL holds every remaining candidate
    let gains: Vec<i64> = vec![4, 1, 9, 1];
    let rcl = exs::tsp_grasp::build_rcl_min(&gains, 1, 1);
    assert_eq!(rcl, vec![0, 1, 2, 3]);
}

#[test]
fn rcl_alpha_zero_takes_only_best_min() {
    // minimization, alpha = 0: only candidates achieving the best
    // (smallest) gain
    let gains: Vec<i64> = vec![4, 1, 9, 1];
    let rcl = exs::tsp_grasp::build_rcl_min(&gains, 0, 1);
    assert_eq!(rcl, vec![1, 3]);
}

#[test]
fn rcl_max_endpoints() {
    // maximization: alpha = 1 admits every remaining candidate,
    // alpha = 0 only those achieving the best gain
    let gains: Vec<i64> = vec![4, 9, 1, 9];
    let all = exs::ksp_grasp::build_rcl_max(&gains, 1, 1);
    assert_eq!(all, vec![0, 1, 2, 3]);
    let best = exs::ksp_grasp::build_rcl_max(&gains, 0, 1);
    assert_eq!(best, vec![1, 3]);
}

#[test]
fn rcl_midpoint_cutoff_max() {
    // cutoff = 9 - (9 - 1) / 2 = 5: gains 5 and up stay
    let gains: Vec<i64> = vec![4, 9, 1, 5];
    let rcl = exs::ksp_grasp::build_rcl_max(&gains, 1, 2);
    assert_eq!(rcl, vec![1, 3]);
}

#[test]
fn ksp_best_of_picks_highest_value() {
    let items = sample_items();
    let params = ByTotalValue { max_weight: 5 };
    let pop = vec![
        exs::knapsack::Solution::new(&items, vec![false, true, false], params),
        exs::knapsack::Solution::new(&items, vec![true, false, false], params),
        exs::knapsack::Solution::new(&items, vec![true, false, false], params),
        exs::knapsack::Solution::new(&items, vec![false, false, true], params),
    ];
    // values 6, 10, 10, 4: the earliest maximum wins
    assert_eq!(exs::ksp_ag::best_of(&pop), 1);
}

#[test]
fn tsp_best_of_picks_shortest_tour() {
    let mut g = GraphMat::default();
    exs::add_nodes(&mut g, 4);
    g.add_edge(0, 1, 1);
    g.add_edge(0, 2, 5);
    g.add_edge(0, 3, 2);
    g.add_edge(1, 2, 2);
    g.add_edge(1, 3, 5);
    g.add_edge(2, 3, 1);
    let pop = vec![
        exs::tsp::Solution::new(vec![0, 2, 1, 3], &g),
        exs::tsp::Solution::new(vec![0, 1, 2, 3], &g),
        exs::tsp::Solution::new(vec![0, 3, 2, 1], &g),
    ];
    // tour lengths 14, 6, 6: the earliest minimum wins
    assert_eq!(exs::tsp_ag::best_of(&pop), 1);
}
