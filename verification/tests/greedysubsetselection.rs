use argmin::greedysubsetselection::cost::compare_subsets;
use argmin::greedysubsetselection::growth::{bootstrap_initial_pair, greedy};
use argmin::greedysubsetselection::local::local_search;
use argmin::greedysubsetselection::pareto::{nondominated, point_line_distance, select_pareto};
use argmin::greedysubsetselection::starts::{
    local_iteration_limit, merge, random_subset, start_seeds, validate_target,
};
use argmin::greedysubsetselection::subset::{
    insert_sorted, remove_sorted, selected_mask, unselected,
};
use argmin::greedysubsetselection::{
    solve, solve_pareto, GreedySubsetSelection, ParetoSelection, SelectionState, SizeMode, Subset,
    SubsetSelectionCost,
};
use argmin::{ArgminFloat, Error, Order, Real};
use rand::seq::SliceRandom;
use rand::{Rng, SeedableRng};
use rand_xoshiro::Xoshiro256PlusPlus;

/// Double precision floating point numbers.
#[derive(Clone, Copy, Debug, PartialEq)]
struct R64(f64);

impl Real for R64 {
    fn less(self, other: Self) -> bool {
        self.0 < other.0
    }

    fn same(self, other: Self) -> bool {
        self.0 == other.0
    }

    fn plus(self, other: Self) -> Self {
        R64(self.0 + other.0)
    }

    fn minus(self, other: Self) -> Self {
        R64(self.0 - other.0)
    }

    fn times(self, other: Self) -> Self {
        R64(self.0 * other.0)
    }

    fn over(self, other: Self) -> Self {
        R64(self.0 / other.0)
    }

    fn magnitude(self) -> Self {
        R64(self.0.abs())
    }

    fn root(self) -> Self {
        R64(self.0.sqrt())
    }

    fn power(self, exponent: Self) -> Self {
        R64(self.0.powf(exponent.0))
    }

    fn infinity() -> Self {
        R64(f64::INFINITY)
    }

    fn neg_infinity() -> Self {
        R64(f64::NEG_INFINITY)
    }

    fn epsilon() -> Self {
        R64(f64::EPSILON)
    }

    fn decimal(mantissa: u64, places: u32) -> Self {
        R64(format!("{}e-{}", mantissa, places).parse().unwrap())
    }

    fn from_u64(n: u64) -> Self {
        R64(n as f64)
    }

    fn unit(k: u64) -> Self {
        R64(k as f64 / 9007199254740992.0)
    }

    fn text(self) -> String {
        format!("{}", self.0)
    }

    fn order_laws(_a: Self, _b: Self, _c: Self) {}

    fn subtraction_laws(_a: Self, _mantissa: u64, _places: u32) {}
}

impl ArgminFloat for R64 {
    type Wide = R64;

    fn conversion_laws(_a: Self, _b: Self, _wide: R64) {}

    fn range_laws(_low: Self, _high: Self, _a: Self, _b: Self) {}

    fn unit_laws(_k: u64) {}

    fn difference_laws(_low: Self, _high: Self, _a: Self, _b: Self) {}

    fn fraction_laws(_a: Self, _x: Self, _z: Self) {}

    fn quotient_laws(_x: Self, _y: Self) {}

    fn counting_laws(_n: u64, _a: Self, _b: Self) {}

    fn logistic_laws(_z: Self) {}

    fn constant_laws() {}

    fn span_laws(_low: Self, _high: Self, _c: Self) {}

    fn infinity_laws(_low: Self, _high: Self, _z: Self) {}

    fn step_laws(_low: R64, _high: R64, _y: R64, _a: R64, _b: R64) {}

    fn wide_order_laws(_a: R64, _b: R64) {}

    fn closeness_laws(_x: Self, _a: Self, _b: Self) {}

    fn widen(self) -> R64 {
        self
    }

    fn narrow(wide: R64) -> R64 {
        wide
    }

    fn cast(wide: R64) -> Option<R64> {
        Some(wide)
    }
}

#[derive(Clone)]
struct MaxCover {
    coverage: Vec<Vec<bool>>,
    n_elements: usize,
}

impl MaxCover {
    fn exact_fixture() -> Self {
        let mut coverage = vec![vec![false; 50]; 20];
        for (item, range) in [(1, 0..13), (4, 13..25), (9, 25..38), (14, 38..50)] {
            for element in range {
                coverage[item][element] = true;
            }
        }
        for item in 0..20 {
            if ![1, 4, 9, 14].contains(&item) {
                coverage[item][item % 50] = true;
            }
        }
        Self {
            coverage,
            n_elements: 50,
        }
    }
}

impl SubsetSelectionCost for MaxCover {
    type Cost = R64;

    fn n_items(&self) -> usize {
        self.coverage.len()
    }

    fn cost(&self, param: &Vec<usize>) -> Result<R64, Error> {
        let mut covered = vec![false; self.n_elements];
        for &item in param {
            for (element, covers) in self.coverage[item].iter().copied().enumerate() {
                covered[element] |= covers;
            }
        }
        Ok(R64(
            -(covered.into_iter().filter(|covered| *covered).count() as f64),
        ))
    }
}

#[derive(Clone)]
struct PairCost {
    matrix: Vec<Vec<f64>>,
}

impl SubsetSelectionCost for PairCost {
    type Cost = R64;

    fn n_items(&self) -> usize {
        self.matrix.len()
    }

    fn cost(&self, param: &Vec<usize>) -> Result<R64, Error> {
        let mut cost = 0.0;
        for &left in param {
            for &right in param {
                if left != right {
                    cost += self.matrix[left][right];
                }
            }
        }
        Ok(R64(cost))
    }
}

/// A problem whose costs are listed by subset. Other subsets have no cost.
struct Listed {
    items: usize,
    costs: Vec<(Vec<usize>, f64)>,
    default: Option<f64>,
}

impl SubsetSelectionCost for Listed {
    type Cost = R64;

    fn n_items(&self) -> usize {
        self.items
    }

    fn cost(&self, param: &Vec<usize>) -> Result<R64, Error> {
        for (subset, cost) in &self.costs {
            if subset == param {
                return Ok(R64(*cost));
            }
        }
        match self.default {
            Some(cost) => Ok(R64(cost)),
            None => Err(Error::msg("no cost")),
        }
    }
}

fn listed(items: usize, costs: Vec<(Vec<usize>, f64)>) -> Listed {
    Listed {
        items,
        costs,
        default: None,
    }
}

fn subset(indices: Vec<usize>, cost: f64) -> Subset<R64> {
    Subset {
        indices,
        cost: R64(cost),
    }
}

#[test]
fn greedy_finds_exact_cover_fixture() {
    let problem = MaxCover::exact_fixture();
    let result = solve(&problem, 4, 1, 0, usize::MAX).unwrap();
    assert_eq!(result.indices, vec![1, 4, 9, 14]);
    assert_eq!(result.cost.0.to_bits(), (-50.0f64).to_bits());
}

#[test]
fn default_incremental_methods_match_full_cost_path() {
    let matrix = vec![
        vec![0.0, -3.0, -2.0, 1.0, 2.0, 1.0],
        vec![-3.0, 0.0, -4.0, 1.0, 2.0, 1.0],
        vec![-2.0, -4.0, 0.0, 1.0, 2.0, 1.0],
        vec![1.0, 1.0, 1.0, 0.0, -1.0, -1.0],
        vec![2.0, 2.0, 2.0, -1.0, 0.0, -1.0],
        vec![1.0, 1.0, 1.0, -1.0, -1.0, 0.0],
    ];
    let problem = PairCost { matrix };
    let result = solve(&problem, 3, 5, 123, usize::MAX).unwrap();
    assert_eq!(result.indices, vec![0, 1, 2]);
}

#[test]
fn repeated_seed_is_deterministic() {
    let problem = MaxCover::exact_fixture();
    let first = solve(&problem, 5, 8, 999, usize::MAX).unwrap();
    for _ in 0..10 {
        let next = solve(&problem, 5, 8, 999, usize::MAX).unwrap();
        assert_eq!(next, first);
    }
}

#[test]
fn pareto_selection_min_cost_is_valid() {
    let problem = MaxCover::exact_fixture();
    let front = solve_pareto(&problem, 2..=4, 2, 7, usize::MAX, ParetoSelection::MinCost).unwrap();
    assert!(!front.solutions.is_empty());
    assert!(front.selected_index < front.solutions.len());
    assert_eq!(
        front.solutions[front.selected_index].cost.0.to_bits(),
        (-50.0f64).to_bits()
    );
}

#[test]
fn executor_smoke_test() {
    let problem = MaxCover::exact_fixture();
    let solver = GreedySubsetSelection::new(SizeMode::Fixed(4))
        .with_n_starts(1)
        .with_seed(0);
    let state: SelectionState<R64> = solver.init(&problem).unwrap();
    assert_eq!(state.param, vec![1usize, 4, 9, 14]);
    assert!(solver.terminate(&state));
    let state = solver.next_iter(state);
    assert_eq!(state.param, vec![1usize, 4, 9, 14]);
    assert!(solver.terminate(&state));
}

#[test]
fn settings_default_and_can_be_changed() {
    let solver = GreedySubsetSelection::new(SizeMode::Bounded { min: 2, max: 3 });
    assert_eq!(solver.size_mode, SizeMode::Bounded { min: 2, max: 3 });
    assert_eq!(solver.n_starts, 5);
    assert_eq!(solver.seed, 0);
    assert_eq!(solver.max_local_iterations, usize::MAX);
    assert_eq!(solver.name(), "GreedySubsetSelection");
    let solver = solver
        .with_n_starts(7)
        .with_seed(11)
        .with_max_local_iterations(3);
    assert_eq!(solver.size_mode, SizeMode::Bounded { min: 2, max: 3 });
    assert_eq!(solver.n_starts, 7);
    assert_eq!(solver.seed, 11);
    assert_eq!(solver.max_local_iterations, 3);
}

#[test]
fn targets_that_do_not_fit_are_refused() {
    let text = |n: usize, target: usize, starts: usize| {
        validate_target(n, target, starts).unwrap_err().message()
    };
    assert_eq!(
        text(1, 0, 0),
        "Invalid parameter: \"`GreedySubsetSelection`: n_starts must be at least 1.\""
    );
    assert_eq!(
        text(5, 1, 1),
        "Invalid parameter: \"`GreedySubsetSelection`: target_size must be at least 2.\""
    );
    assert_eq!(
        text(5, 6, 1),
        "Invalid parameter: \"`GreedySubsetSelection`: target_size must not exceed n_items.\""
    );
    assert!(validate_target(5, 5, 1).is_ok());
    let problem = MaxCover::exact_fixture();
    assert!(solve(&problem, 21, 1, 0, usize::MAX).is_err());
    assert!(solve(&problem, 20, 1, 0, usize::MAX).is_ok());
}

#[test]
fn empty_size_ranges_are_refused() {
    let problem = MaxCover::exact_fixture();
    let error = solve_pareto(
        &problem,
        std::ops::RangeInclusive::new(4, 3),
        1,
        0,
        usize::MAX,
        ParetoSelection::MinCost,
    )
    .unwrap_err();
    assert_eq!(
        error.message(),
        "Invalid parameter: \"`GreedySubsetSelection`: size range must not be empty.\""
    );
}

#[test]
fn errors_of_the_problem_are_passed_on() {
    let problem = listed(4, vec![(vec![0, 1], 1.0)]);
    assert_eq!(
        solve(&problem, 2, 1, 0, usize::MAX).unwrap_err().message(),
        "no cost"
    );
    assert_eq!(
        greedy(&listed(1, vec![]), 2).unwrap_err().message(),
        "Invalid parameter: \"`GreedySubsetSelection`: at least two items are required.\""
    );
    assert_eq!(
        greedy(&listed(2, vec![(vec![0, 1], 1.0)]), 3)
            .unwrap_err()
            .message(),
        "Potential bug: \"`GreedySubsetSelection`: candidate heap unexpectedly empty.\""
    );
}

#[test]
fn best_pair_comes_first() {
    let problem = listed(
        3,
        vec![(vec![0, 1], 2.0), (vec![0, 2], 1.0), (vec![1, 2], 1.0)],
    );
    assert_eq!(bootstrap_initial_pair(&problem).unwrap(), vec![0, 2]);
    // items from the scan limit on are not paired
    let problem = Listed {
        items: 202,
        costs: vec![(vec![200, 201], -1.0), (vec![198, 199], -0.5)],
        default: Some(0.0),
    };
    assert_eq!(bootstrap_initial_pair(&problem).unwrap(), vec![198, 199]);
}

#[test]
fn growth_takes_the_item_that_lowers_the_cost_most() {
    let problem = listed(
        4,
        vec![
            (vec![0, 1], 0.0),
            (vec![0, 2], 5.0),
            (vec![0, 3], 5.0),
            (vec![1, 2], 5.0),
            (vec![1, 3], 5.0),
            (vec![2, 3], 5.0),
            (vec![0, 1, 2], -1.0),
            (vec![0, 1, 3], -2.0),
            (vec![0, 1, 2, 3], -2.5),
        ],
    );
    assert_eq!(greedy(&problem, 2).unwrap(), subset(vec![0, 1], 0.0));
    assert_eq!(greedy(&problem, 3).unwrap(), subset(vec![0, 1, 3], -2.0));
    assert_eq!(greedy(&problem, 4).unwrap(), subset(vec![0, 1, 2, 3], -2.5));
}

#[test]
fn growth_breaks_ties_by_the_smaller_item() {
    let problem = Listed {
        items: 5,
        costs: vec![],
        default: Some(1.0),
    };
    assert_eq!(greedy(&problem, 4).unwrap(), subset(vec![0, 1, 2, 3], 1.0));
}

#[test]
fn local_search_makes_the_first_improving_swap() {
    let problem = listed(
        4,
        vec![
            (vec![0, 1], 3.0),
            (vec![1, 2], 2.0),
            (vec![1, 3], 0.0),
            (vec![0, 2], 1.0),
            (vec![0, 3], 1.5),
            (vec![2, 3], 4.0),
        ],
    );
    let start = || subset(vec![0, 1], 3.0);
    assert_eq!(local_search(&problem, start(), 0).unwrap(), start());
    assert_eq!(
        local_search(&problem, start(), 1).unwrap(),
        subset(vec![1, 2], 2.0)
    );
    assert_eq!(
        local_search(&problem, start(), 2).unwrap(),
        subset(vec![0, 2], 1.0)
    );
    // the best pair cannot be reached by one swap, so this one stays
    assert_eq!(
        local_search(&problem, start(), 100).unwrap(),
        subset(vec![0, 2], 1.0)
    );
    // a cost that is not known is asked for
    assert_eq!(
        local_search(&problem, subset(vec![1, 3], f64::INFINITY), 100).unwrap(),
        subset(vec![1, 3], 0.0)
    );
}

#[test]
fn swaps_have_to_lower_the_cost_by_more_than_the_tolerance() {
    let problem = listed(
        3,
        vec![
            (vec![0, 1], 1.0),
            (vec![1, 2], 1.0 - 1e-13),
            (vec![0, 2], 1.0 - 1e-11),
        ],
    );
    assert_eq!(
        local_search(&problem, subset(vec![0, 1], 1.0), 10).unwrap(),
        subset(vec![0, 2], 1.0 - 1e-11)
    );
}

#[test]
fn swap_limit_grows_with_the_target() {
    assert_eq!(local_iteration_limit(3, 17), 17);
    assert_eq!(local_iteration_limit(3, usize::MAX), 300);
    assert_eq!(
        local_iteration_limit(usize::MAX / 2, usize::MAX),
        usize::MAX
    );
}

#[test]
fn random_starts_follow_from_their_seeds() {
    let seeds = start_seeds(42, 4);
    let mut rng = Xoshiro256PlusPlus::seed_from_u64(42);
    let expected: Vec<u64> = (1..4).map(|_| rng.random::<u64>()).collect();
    assert_eq!(seeds, expected);
    assert!(start_seeds(42, 1).is_empty());
    assert!(start_seeds(42, 0).is_empty());

    let drawn: Subset<R64> = random_subset(30, 5, 77);
    let mut items: Vec<usize> = (0..30).collect();
    let mut rng = Xoshiro256PlusPlus::seed_from_u64(77);
    items.partial_shuffle(&mut rng, 5);
    let mut indices = items[..5].to_vec();
    indices.sort_unstable();
    assert_eq!(drawn.indices, indices);
    assert!(drawn.cost.0.is_infinite() && drawn.cost.0 > 0.0);
    // all the items but those that trade places with the last ones stay
    let whole: Subset<R64> = random_subset(30, 30, 77);
    assert_eq!(whole.indices, (0..30).collect::<Vec<usize>>());
}

#[test]
fn shuffled_items_differ_from_the_first_items() {
    let changed = (0..20u64).any(|seed| {
        let drawn: Subset<R64> = random_subset(10, 5, seed);
        drawn.indices != vec![0, 1, 2, 3, 4]
    });
    assert!(changed);
}

#[test]
fn best_candidate_is_merged_and_errors_stop() {
    let best = merge(
        subset(vec![0, 1], 3.0),
        vec![
            Ok(subset(vec![1, 2], 2.0)),
            Ok(subset(vec![0, 2], 2.0)),
            Ok(subset(vec![0, 3], 4.0)),
        ],
    )
    .unwrap();
    assert_eq!(best, subset(vec![0, 2], 2.0));
    let error = merge(
        subset(vec![0, 1], 3.0),
        vec![
            Ok(subset(vec![1, 2], 2.0)),
            Err(Error::msg("first")),
            Err(Error::msg("second")),
        ],
    )
    .unwrap_err();
    assert_eq!(error.message(), "first");
}

#[test]
fn more_starts_are_never_worse() {
    let matrix: Vec<Vec<f64>> = (0..12)
        .map(|i: i64| {
            (0..12)
                .map(|j: i64| (((i * 7 + j * 7 + i * j * 3) % 11) - 5) as f64)
                .collect()
        })
        .collect();
    let problem = PairCost { matrix };
    let mut last = f64::INFINITY;
    for starts in 1..8 {
        let result = solve(&problem, 5, starts, 3, usize::MAX).unwrap();
        assert!(result.cost.0 <= last);
        assert_eq!(result.indices.len(), 5);
        assert!(result.indices.windows(2).all(|w| w[0] < w[1]));
        assert_eq!(problem.cost(&result.indices).unwrap(), result.cost);
        last = result.cost.0;
    }
}

#[test]
fn subsets_compare_by_cost_then_size_then_items() {
    let a = subset(vec![0, 5], 1.0);
    let b = subset(vec![1, 2], 1.0);
    let c = subset(vec![0, 1, 2], 1.0);
    let d = subset(vec![9], 2.0);
    let undefined = subset(vec![9], f64::NAN);
    assert_eq!(compare_subsets(&a, &b), Order::Less);
    assert_eq!(compare_subsets(&b, &a), Order::Greater);
    assert_eq!(compare_subsets(&b, &c), Order::Less);
    assert_eq!(compare_subsets(&c, &d), Order::Less);
    assert_eq!(compare_subsets(&a, &a), Order::Equal);
    // an undefined cost neither comes first nor last, so the sizes decide
    assert_eq!(compare_subsets(&undefined, &a), Order::Less);
}

#[test]
fn front_keeps_what_is_cheaper_than_everything_smaller() {
    let front = nondominated(vec![
        subset(vec![0, 1, 2, 3], -3.0),
        subset(vec![0, 1], -1.0),
        subset(vec![0, 1, 2], -1.0),
        subset(vec![1, 2], -2.0),
        subset(vec![0, 1, 2, 3, 4], f64::NAN),
    ]);
    assert_eq!(
        front,
        vec![
            subset(vec![1, 2], -2.0),
            subset(vec![0, 1, 2, 3], -3.0),
        ]
    );
}

#[test]
fn front_starts_with_the_smallest_subset_whose_cost_is_a_number() {
    let infinite = subset(vec![0, 1], f64::INFINITY);
    let cheap = subset(vec![0, 1, 2, 3], 5.0);
    assert_eq!(nondominated(vec![infinite.clone()]), vec![infinite.clone()]);
    assert_eq!(
        nondominated(vec![
            cheap.clone(),
            subset(vec![0, 1, 2], f64::INFINITY),
            infinite.clone(),
        ]),
        vec![infinite, cheap.clone()]
    );
    // an undefined cost is left out as long as there is another
    let undefined = subset(vec![0, 1], f64::NAN);
    assert_eq!(nondominated(vec![undefined.clone(), cheap.clone()]), vec![cheap]);
    let front = nondominated(vec![subset(vec![0, 1, 2], f64::NAN), undefined]);
    assert_eq!(front.len(), 1);
    assert_eq!(front[0].indices, vec![0, 1]);
    assert!(nondominated(Vec::<Subset<R64>>::new()).is_empty());
}

#[test]
fn recommended_subset_depends_on_the_strategy() {
    let front = vec![
        subset(vec![0, 1], 10.0),
        subset(vec![0, 1, 2], 4.0),
        subset(vec![0, 1, 2, 3], 3.0),
        subset(vec![0, 1, 2, 3, 4], 2.5),
    ];
    assert_eq!(select_pareto(&front, ParetoSelection::MinCost), 3);
    assert_eq!(select_pareto(&front, ParetoSelection::MinSize), 0);
    assert_eq!(select_pareto(&front, ParetoSelection::MaxSize), 3);
    assert_eq!(select_pareto(&front, ParetoSelection::Knee), 1);
    // two points have no knee
    assert_eq!(select_pareto(&front[..2].to_vec(), ParetoSelection::Knee), 1);
    // of points that are equally far from the line the last is taken
    let line = vec![
        subset(vec![0, 1], 4.0),
        subset(vec![0, 1, 2], 3.0),
        subset(vec![0, 1, 2, 3], 2.0),
        subset(vec![0, 1, 2, 3, 4], 1.0),
    ];
    assert_eq!(select_pareto(&line, ParetoSelection::Knee), 2);
    // points in the same place have no line through them
    let place = vec![
        subset(vec![0, 1], 4.0),
        subset(vec![0, 2], 3.0),
        subset(vec![1, 2], 4.0),
    ];
    assert_eq!(select_pareto(&place, ParetoSelection::Knee), 1);
    let nothing: Vec<Subset<R64>> = vec![];
    for selection in [
        ParetoSelection::MinCost,
        ParetoSelection::MinSize,
        ParetoSelection::MaxSize,
        ParetoSelection::Knee,
    ] {
        assert_eq!(select_pareto(&nothing, selection), 0);
    }
}

#[test]
fn distance_from_a_line() {
    // the line through (0, 0) and (3, 4), which is 5 long
    let distance = point_line_distance(R64(3.0), R64(0.0), R64(0.0), R64(0.0), R64(3.0), R64(4.0));
    assert_eq!(distance.0, 12.0 / 5.0);
}

#[test]
fn front_of_a_problem_grows_in_size_and_falls_in_cost() {
    let problem = MaxCover::exact_fixture();
    let front = solve_pareto(&problem, 2..=6, 2, 7, usize::MAX, ParetoSelection::MaxSize).unwrap();
    for pair in front.solutions.windows(2) {
        assert!(pair[0].indices.len() < pair[1].indices.len());
        assert!(pair[1].cost.0 < pair[0].cost.0);
    }
    assert_eq!(front.selected_index, front.solutions.len() - 1);
    let solver = GreedySubsetSelection::new(SizeMode::Bounded { min: 2, max: 6 })
        .with_n_starts(2)
        .with_seed(7);
    let state: SelectionState<R64> = solver.init(&problem).unwrap();
    assert_eq!(state.param, vec![1, 4, 9, 14]);
    assert_eq!(state.cost.0, -50.0);
}

#[test]
fn a_subset_is_selected_even_if_nothing_costs_less_than_infinity() {
    let problem = Listed {
        items: 4,
        costs: vec![],
        default: Some(f64::INFINITY),
    };
    for selection in [
        ParetoSelection::MinCost,
        ParetoSelection::MinSize,
        ParetoSelection::MaxSize,
        ParetoSelection::Knee,
    ] {
        let front = solve_pareto(&problem, 2..=4, 2, 7, usize::MAX, selection).unwrap();
        assert_eq!(front.solutions.len(), 1);
        assert_eq!(front.selected_index, 0);
    }
    let solver = GreedySubsetSelection::new(SizeMode::Bounded { min: 2, max: 3 });
    let state: SelectionState<R64> = solver.init(&problem).unwrap();
    assert_eq!(state.param.len(), 2);
    assert_eq!(state.cost.0, f64::INFINITY);
    assert!(state.converged);
}

/// Numbers into which no other number can be turned.
#[derive(Clone, Copy, Debug, PartialEq)]
struct Unrepresentable(f64);

impl Real for Unrepresentable {
    fn less(self, other: Self) -> bool {
        self.0 < other.0
    }

    fn same(self, other: Self) -> bool {
        self.0 == other.0
    }

    fn plus(self, _other: Self) -> Self {
        self
    }

    fn minus(self, _other: Self) -> Self {
        self
    }

    fn times(self, _other: Self) -> Self {
        self
    }

    fn over(self, _other: Self) -> Self {
        self
    }

    fn magnitude(self) -> Self {
        self
    }

    fn root(self) -> Self {
        self
    }

    fn power(self, _exponent: Self) -> Self {
        self
    }

    fn infinity() -> Self {
        Unrepresentable(f64::INFINITY)
    }

    fn neg_infinity() -> Self {
        Unrepresentable(f64::NEG_INFINITY)
    }

    fn epsilon() -> Self {
        Unrepresentable(0.0)
    }

    fn decimal(_mantissa: u64, _places: u32) -> Self {
        Unrepresentable(0.0)
    }

    fn from_u64(_n: u64) -> Self {
        Unrepresentable(0.0)
    }

    fn unit(_k: u64) -> Self {
        Unrepresentable(0.0)
    }

    fn text(self) -> String {
        String::new()
    }

    fn order_laws(_a: Self, _b: Self, _c: Self) {}

    fn subtraction_laws(_a: Self, _mantissa: u64, _places: u32) {}
}

impl ArgminFloat for Unrepresentable {
    type Wide = R64;

    fn conversion_laws(_a: Self, _b: Self, _wide: R64) {}

    fn range_laws(_low: Self, _high: Self, _a: Self, _b: Self) {}

    fn unit_laws(_k: u64) {}

    fn difference_laws(_low: Self, _high: Self, _a: Self, _b: Self) {}

    fn fraction_laws(_a: Self, _x: Self, _z: Self) {}

    fn quotient_laws(_x: Self, _y: Self) {}

    fn counting_laws(_n: u64, _a: Self, _b: Self) {}

    fn logistic_laws(_z: Self) {}

    fn constant_laws() {}

    fn span_laws(_low: Self, _high: Self, _c: Self) {}

    fn infinity_laws(_low: Self, _high: Self, _z: Self) {}

    fn step_laws(_low: R64, _high: R64, _y: R64, _a: R64, _b: R64) {}

    fn wide_order_laws(_a: R64, _b: R64) {}

    fn closeness_laws(_x: Self, _a: Self, _b: Self) {}

    fn widen(self) -> R64 {
        R64(self.0)
    }

    fn narrow(wide: R64) -> Self {
        Unrepresentable(wide.0)
    }

    fn cast(_wide: R64) -> Option<Self> {
        None
    }
}

#[test]
fn costs_have_to_be_representable() {
    let problem = MaxCover::exact_fixture();
    let solver = GreedySubsetSelection::new(SizeMode::Fixed(4)).with_n_starts(1);
    let result: Result<SelectionState<Unrepresentable>, Error> = solver.init(&problem);
    assert_eq!(
        result.err().unwrap().message(),
        "Invalid parameter: \"`GreedySubsetSelection`: cost is not representable in the state's float type.\""
    );
}

#[test]
fn items_are_inserted_and_removed_in_order() {
    let mut values = vec![1, 4, 9];
    insert_sorted(&mut values, 5);
    assert_eq!(values, vec![1, 4, 5, 9]);
    insert_sorted(&mut values, 0);
    insert_sorted(&mut values, 10);
    assert_eq!(values, vec![0, 1, 4, 5, 9, 10]);
    remove_sorted(&mut values, 5);
    remove_sorted(&mut values, 7);
    assert_eq!(values, vec![0, 1, 4, 9, 10]);
    assert_eq!(selected_mask(4, &vec![0, 3]), vec![true, false, false, true]);
    assert_eq!(unselected(5, &vec![0, 3]), vec![1, 2, 4]);
}

#[test]
fn incremental_costs_are_costs_of_the_changed_subset() {
    let matrix = vec![
        vec![0.0, 1.0, 2.0, 4.0],
        vec![1.0, 0.0, 8.0, 16.0],
        vec![2.0, 8.0, 0.0, 32.0],
        vec![4.0, 16.0, 32.0, 0.0],
    ];
    let problem = PairCost { matrix };
    assert_eq!(problem.cost_with_added(&[0, 2], 1).unwrap().0, 22.0);
    assert_eq!(problem.cost_with_removed(&[0, 1, 2], 1).unwrap().0, 4.0);
    assert_eq!(problem.cost_with_swapped(&[0, 2], 0, 3).unwrap().0, 64.0);
}

#[test]
fn undefined_costs_are_not_recommended() {
    let mut costs = Vec::new();
    for a in 0..3usize {
        for b in a + 1..3 {
            costs.push((vec![a, b], f64::NAN));
        }
    }
    costs.push((vec![0, 1, 2], 5.0));
    let problem = listed(3, costs);
    let front = solve_pareto(&problem, 2..=3, 1, 0, usize::MAX, ParetoSelection::MinCost).unwrap();
    assert_eq!(front.solutions, vec![subset(vec![0, 1, 2], 5.0)]);
    assert_eq!(front.selected_index, 0);
    let solver = GreedySubsetSelection::new(SizeMode::Bounded { min: 2, max: 3 });
    let state: SelectionState<R64> = solver.init(&problem).unwrap();
    assert_eq!(state.param, vec![0, 1, 2]);
    assert_eq!(state.cost.0, 5.0);
}

#[test]
fn members_of_the_front_carry_their_costs() {
    let problem = MaxCover::exact_fixture();
    let front = solve_pareto(&problem, 2..=5, 2, 3, usize::MAX, ParetoSelection::Knee).unwrap();
    for s in &front.solutions {
        assert!(2 <= s.indices.len() && s.indices.len() <= 5);
        assert_eq!(problem.cost(&s.indices).unwrap(), s.cost);
    }
}

#[test]
fn greedy_subsets_form_a_chain() {
    let problem = MaxCover::exact_fixture();
    let mut smaller = greedy(&problem, 2).unwrap();
    for size in 3..=8 {
        let larger = greedy(&problem, size).unwrap();
        assert_eq!(larger.indices.len(), size);
        assert!(smaller.indices.iter().all(|item| larger.indices.contains(item)));
        smaller = larger;
    }
}
