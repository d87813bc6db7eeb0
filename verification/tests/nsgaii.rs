use argmin::nsgaii::generation::{admit_newcomer, check_individual, check_offspring};
use argmin::nsgaii::selection::select;
use argmin::nsgaii::variation::{close, cross, cross_at, mutate, mutate_at, place};
use argmin::nsgaii::{Individual, NsgaII};
use argmin::{ArgminFloat, Error, MultiObjectiveCostFunction, RandomSource, Real};
use rand::rngs::StdRng;
use rand::SeedableRng;

/// Double precision floating point numbers.
#[derive(Clone, Copy, Debug, PartialEq)]
struct R64(f64);

impl Real for R64 {
    fn less(self, other: Self) -> bool {
        self.0 < other.0
    }

    fn same(self, other: Self) -> bool {
        self.0 == other.0
    }

    fn plus(self, other: Self) -> Self {
        R64(self.0 + other.0)
    }

    fn minus(self, other: Self) -> Self {
        R64(self.0 - other.0)
    }

    fn times(self, other: Self) -> Self {
        R64(self.0 * other.0)
    }

    fn over(self, other: Self) -> Self {
        R64(self.0 / other.0)
    }

    fn magnitude(self) -> Self {
        R64(self.0.abs())
    }

    fn root(self) -> Self {
        R64(self.0.sqrt())
    }

    fn power(self, exponent: Self) -> Self {
        R64(self.0.powf(exponent.0))
    }

    fn infinity() -> Self {
        R64(f64::INFINITY)
    }

    fn neg_infinity() -> Self {
        R64(f64::NEG_INFINITY)
    }

    fn epsilon() -> Self {
        R64(f64::EPSILON)
    }

    fn decimal(mantissa: u64, places: u32) -> Self {
        R64(format!("{}e-{}", mantissa, places).parse().unwrap())
    }

    fn from_u64(n: u64) -> Self {
        R64(n as f64)
    }

    fn unit(k: u64) -> Self {
        R64(k as f64 / 9007199254740992.0)
    }

    fn text(self) -> String {
        format!("{}", self.0)
    }

    fn order_laws(_a: Self, _b: Self, _c: Self) {}

    fn subtraction_laws(_a: Self, _mantissa: u64, _places: u32) {}
}

impl ArgminFloat for R64 {
    type Wide = R64;

    fn conversion_laws(_a: Self, _b: Self, _wide: R64) {}

    fn range_laws(_low: Self, _high: Self, _a: Self, _b: Self) {}

    fn unit_laws(_k: u64) {}

    fn difference_laws(_low: Self, _high: Self, _a: Self, _b: Self) {}

    fn fraction_laws(_a: Self, _x: Self, _z: Self) {}

    fn quotient_laws(_x: Self, _y: Self) {}

    fn counting_laws(_n: u64, _a: Self, _b: Self) {}

    fn logistic_laws(_z: Self) {}

    fn constant_laws() {}

    fn span_laws(_low: Self, _high: Self, _c: Self) {}

    fn infinity_laws(_low: Self, _high: Self, _z: Self) {}

    fn step_laws(_low: R64, _high: R64, _y: R64, _a: R64, _b: R64) {}

    fn wide_order_laws(_a: R64, _b: R64) {}

    fn closeness_laws(_x: Self, _a: Self, _b: Self) {}

    fn widen(self) -> R64 {
        self
    }

    fn narrow(wide: R64) -> R64 {
        wide
    }

    fn cast(wide: R64) -> Option<R64> {
        Some(wide)
    }
}

fn reals(values: &[f64]) -> Vec<R64> {
    values.iter().map(|x| R64(*x)).collect()
}

fn bounds(pairs: &[(f64, f64)]) -> Vec<(R64, R64)> {
    pairs.iter().map(|(a, b)| (R64(*a), R64(*b))).collect()
}

fn individual(position: &[f64], objectives: &[f64]) -> Individual<Vec<R64>, R64> {
    Individual::new(reals(position), reals(objectives))
}

#[derive(Clone)]
struct TestProblem;

impl MultiObjectiveCostFunction<R64> for TestProblem {
    fn objectives(&self, param: &Vec<R64>) -> Result<Vec<R64>, Error> {
        let f1 = param[0].0.powi(2) + param[1].0.powi(2);
        let f2 = (param[0].0 - 1.0).powi(2) + (param[1].0 - 1.0).powi(2);
        Ok(reals(&[f1, f2]))
    }

    fn num_objectives(&self) -> usize {
        2
    }
}

/// A generator that gives the listed words in a circle.
struct Script {
    words: Vec<u64>,
    next: usize,
}

impl RandomSource for Script {
    fn word(&mut self) -> u64 {
        let word = self.words[self.next % self.words.len()];
        self.next += 1;
        word
    }

    fn index_below(&mut self, bound: usize) -> usize {
        (self.word() % bound as u64) as usize
    }
}

fn script(words: &[u64]) -> Script {
    Script {
        words: words.to_vec(),
        next: 0,
    }
}

#[test]
fn test_objectives() {
    let problem = TestProblem;
    let param = reals(&[1.0, 1.0]);
    let result = problem.objectives(&param).unwrap();
    assert_eq!(result.len(), 2);
    assert_eq!(result[0], R64(2.0));
    assert_eq!(result[1], R64(0.0));
}

#[test]
fn mod_test_new() {
    let bounds = bounds(&[(-5.0, 5.0), (-5.0, 5.0)]);
    let solver = NsgaII::<R64>::new(bounds, 100);
    assert!(solver.is_ok());
}

#[test]
fn test_new_invalid_bounds() {
    let bounds = bounds(&[(5.0, -5.0)]);
    let solver = NsgaII::<R64>::new(bounds, 100);
    let err = solver.err().unwrap();
    assert!(
        err.message()
            .contains("NSGA-II: invalid bounds at dimension 0: min (5) must be < max (-5)"),
        "Expected 'NSGA-II: invalid bounds at dimension 0: min (5) must be < max (-5)' error, got: {}",
        err.message()
    );
}

#[test]
fn test_new_odd_population() {
    let bounds = bounds(&[(-5.0, 5.0)]);
    let solver = NsgaII::<R64>::new(bounds, 101);
    let err = solver.err().unwrap();
    assert!(
        err.message()
            .contains("NSGA-II: population size must be even"),
        "Expected 'NSGA-II: population size must be even' error, got: {}",
        err.message()
    );
}

#[test]
fn test_dominates() {
    // a dominates b (a is better in all objectives)
    let a = reals(&[1.0, 2.0]);
    let b = reals(&[2.0, 3.0]);
    assert!(NsgaII::<R64, StdRng>::dominates(&a, &b));
    assert!(!NsgaII::<R64, StdRng>::dominates(&b, &a));
}

#[test]
fn test_dominates_partial() {
    // Neither dominates (a is better in first, b is better in second)
    let a = reals(&[1.0, 4.0]);
    let b = reals(&[2.0, 3.0]);
    assert!(!NsgaII::<R64, StdRng>::dominates(&a, &b));
    assert!(!NsgaII::<R64, StdRng>::dominates(&b, &a));
}

#[test]
fn test_dominates_equal() {
    // Equal solutions - neither dominates
    let a = reals(&[2.0, 3.0]);
    let b = reals(&[2.0, 3.0]);
    assert!(!NsgaII::<R64, StdRng>::dominates(&a, &b));
    assert!(!NsgaII::<R64, StdRng>::dominates(&b, &a));
}

#[test]
fn test_dominates_one_equal() {
    // a dominates b (equal in first, better in second)
    let a = reals(&[2.0, 2.0]);
    let b = reals(&[2.0, 3.0]);
    assert!(NsgaII::<R64, StdRng>::dominates(&a, &b));
    assert!(!NsgaII::<R64, StdRng>::dominates(&b, &a));
}

#[test]
fn test_individual_new() {
    let ind: Individual<Vec<R64>, R64> =
        Individual::new(reals(&[1.0, 2.0]), reals(&[3.0, 4.0]));
    assert_eq!(ind.position, reals(&[1.0, 2.0]));
    assert_eq!(ind.objectives, reals(&[3.0, 4.0]));
    assert_eq!(ind.rank, 0);
    assert_eq!(ind.crowding_distance.0.to_ne_bytes(), 0.0_f64.to_ne_bytes());
}

#[test]
fn test_crossover() {
    let bounds = bounds(&[(-5.0, 5.0), (-5.0, 5.0)]);
    let mut solver = NsgaII::<R64>::new(bounds, 10).ok().unwrap();

    let parent1 = reals(&[1.0, 2.0]);
    let parent2 = reals(&[3.0, 4.0]);

    let (child1, child2) = solver.crossover(&parent1, &parent2);

    assert_eq!(child1.len(), 2);
    assert_eq!(child2.len(), 2);

    for val in &child1 {
        assert!(val.0 >= -5.0 && val.0 <= 5.0);
    }
    for val in &child2 {
        assert!(val.0 >= -5.0 && val.0 <= 5.0);
    }
}

#[test]
fn test_mutation() {
    let bounds = bounds(&[(-5.0, 5.0), (-5.0, 5.0)]);
    let mut solver = NsgaII::<R64>::new(bounds, 10).ok().unwrap();

    let individual = reals(&[1.0, 2.0]);
    let mutated = solver.mutate(&individual);

    assert_eq!(mutated.len(), 2);

    for val in &mutated {
        assert!(val.0 >= -5.0 && val.0 <= 5.0);
    }
}

#[test]
fn test_fast_non_dominated_sort() {
    let bounds = bounds(&[(-5.0, 5.0), (-5.0, 5.0)]);
    let solver = NsgaII::<R64>::new(bounds, 10).ok().unwrap();

    let mut population = vec![
        individual(&[0.0, 0.0], &[1.0, 5.0]),
        individual(&[1.0, 1.0], &[2.0, 4.0]),
        individual(&[2.0, 2.0], &[3.0, 3.0]),
        individual(&[3.0, 3.0], &[4.0, 2.0]),
        individual(&[4.0, 4.0], &[5.0, 1.0]),
        individual(&[5.0, 5.0], &[5.5, 5.5]), // Dominated by all except [6]
        individual(&[6.0, 6.0], &[6.0, 6.0]), // Dominated by all
    ];

    solver.fast_non_dominated_sort(&mut population);

    assert_eq!(population[0].rank, 0);
    assert_eq!(population[1].rank, 0);
    assert_eq!(population[2].rank, 0);
    assert_eq!(population[3].rank, 0);
    assert_eq!(population[4].rank, 0);
    assert_eq!(population[5].rank, 1);
    assert_eq!(population[6].rank, 2);
}

#[test]
fn test_crowding_distance() {
    let bounds = bounds(&[(-5.0, 5.0), (-5.0, 5.0)]);
    let solver = NsgaII::<R64>::new(bounds, 10).ok().unwrap();

    let mut population = vec![
        individual(&[0.0, 0.0], &[1.0, 5.0]),
        individual(&[1.0, 1.0], &[1.5, 4.8]),
        individual(&[2.0, 2.0], &[2.0, 4.5]),
        individual(&[3.0, 3.0], &[4.5, 1.5]),
        individual(&[4.0, 4.0], &[5.0, 1.0]),
    ];

    let front: Vec<usize> = (0..5).collect();
    solver.calculate_crowding_distance(&mut population, &front);

    assert!(population[0].crowding_distance.0.is_infinite());
    assert_eq!(population[1].crowding_distance, R64(0.375));
    assert_eq!(population[2].crowding_distance, R64(1.575));
    assert_eq!(population[3].crowding_distance, R64(1.625));
    assert!(population[4].crowding_distance.0.is_infinite());
}

#[test]
fn test_crowding_distance_degenerate_case() {
    let bounds = bounds(&[(-5.0, 5.0)]);
    let solver = NsgaII::<R64>::new(bounds, 10).ok().unwrap();

    let mut population = vec![
        individual(&[0.0], &[1.0]),
        individual(&[1.0], &[1.0]),
        individual(&[2.0], &[1.0]),
    ];

    let front: Vec<usize> = (0..3).collect();
    solver.calculate_crowding_distance(&mut population, &front);

    assert!(population[0].crowding_distance.0.is_infinite());
    assert_eq!(population[1].crowding_distance, R64(1e-10));
    assert!(population[2].crowding_distance.0.is_infinite());
}

#[test]
fn test_tournament_selection_different_individuals() {
    let bounds = bounds(&[(-5.0, 5.0)]);
    let mut solver = NsgaII::<R64>::new(bounds, 10).ok().unwrap();

    let population = vec![
        individual(&[0.0], &[1.0]),
        individual(&[1.0], &[2.0]),
        individual(&[2.0], &[3.0]),
    ];

    for _ in 0..20 {
        let selected = solver.tournament_selection(&population);
        assert!(selected < population.len());
    }
}

#[test]
fn test_crowded_compare() {
    let pop = vec![
        Individual {
            position: reals(&[0.0]),
            objectives: reals(&[1.0]),
            rank: 0,
            crowding_distance: R64(5.0),
        },
        Individual {
            position: reals(&[1.0]),
            objectives: reals(&[2.0]),
            rank: 1,
            crowding_distance: R64(10.0),
        },
        Individual {
            position: reals(&[2.0]),
            objectives: reals(&[3.0]),
            rank: 0,
            crowding_distance: R64(3.0),
        },
    ];

    assert!(NsgaII::<R64, StdRng>::crowded_compare(&pop, 0, 1));
    assert!(!NsgaII::<R64, StdRng>::crowded_compare(&pop, 1, 0));

    assert!(NsgaII::<R64, StdRng>::crowded_compare(&pop, 0, 2));
    assert!(!NsgaII::<R64, StdRng>::crowded_compare(&pop, 2, 0));
}

#[derive(Clone, Debug)]
struct BadProblem;

impl MultiObjectiveCostFunction<R64> for BadProblem {
    fn objectives(&self, _param: &Vec<R64>) -> Result<Vec<R64>, Error> {
        Ok(reals(&[f64::NAN, 1.0]))
    }

    fn num_objectives(&self) -> usize {
        2
    }
}

#[test]
fn test_invalid_objectives_nan() {
    let problem = BadProblem;
    let bounds = bounds(&[(-5.0, 5.0), (-5.0, 5.0)]);
    let mut solver = NsgaII::<R64>::new(bounds, 10).ok().unwrap();

    let result = solver.init(Some(&problem), None);
    let err = result.err().unwrap();
    assert!(
        err.message()
            .contains("NSGA-II: Objective 0 is not finite (NaN or infinite)"),
        "Expected 'NSGA-II: Objective 0 is not finite (NaN or infinite)' error, got: {}",
        err.message()
    );
}

#[test]
fn test_provided_population_validation() {
    let problem = TestProblem;
    let bounds = bounds(&[(-5.0, 5.0), (-5.0, 5.0)]);
    let mut solver = NsgaII::<R64>::new(bounds, 4).ok().unwrap();

    let population = vec![
        individual(&[10.0, 10.0], &[1.0, 2.0]),
        individual(&[1.0, 1.0], &[1.0, 2.0]),
        individual(&[2.0, 2.0], &[2.0, 3.0]),
        individual(&[3.0, 3.0], &[3.0, 4.0]),
    ];

    let result = solver.init(Some(&problem), Some(population));

    let err = result.err().unwrap();
    assert!(
        err.message()
            .contains("NSGA-II: Individual 0 dimension 0 value 10 is outside bounds [-5, 5]"),
        "Expected 'NSGA-II: Individual 0 dimension 0 value 10 is outside bounds [-5, 5]' error, got: {}",
        err.message()
    );
}

#[test]
fn genetic_settings_default_and_can_be_changed() {
    let solver = NsgaII::<R64>::new(bounds(&[(0.0, 1.0), (2.0, 4.0)]), 6)
        .ok()
        .unwrap();
    assert_eq!(solver.name(), "NSGA-II");
    assert_eq!(solver.population_size, 6);
    assert_eq!(solver.crossover_probability, R64(0.9));
    assert_eq!(solver.mutation_probability, R64(0.5));
    assert_eq!(solver.crossover_eta, R64(20.0));
    assert_eq!(solver.mutation_eta, R64(20.0));
    let solver = solver
        .with_crossover_probability(R64(0.1))
        .with_mutation_probability(R64(0.2))
        .with_crossover_eta(R64(3.0))
        .with_mutation_eta(R64(4.0))
        .with_rng(script(&[1]));
    assert_eq!(solver.crossover_probability, R64(0.1));
    assert_eq!(solver.mutation_probability, R64(0.2));
    assert_eq!(solver.crossover_eta, R64(3.0));
    assert_eq!(solver.mutation_eta, R64(4.0));
    assert_eq!(solver.bounds, bounds(&[(0.0, 1.0), (2.0, 4.0)]));
}

#[test]
fn unsuitable_settings_are_refused() {
    let text = |pairs: &[(f64, f64)], size: usize| {
        NsgaII::<R64>::new(bounds(pairs), size)
            .err()
            .unwrap()
            .message()
    };
    assert_eq!(text(&[], 1), "NSGA-II: bounds cannot be empty");
    assert_eq!(
        text(&[(0.0, 1.0)], 3),
        "NSGA-II: population size must be at least 4"
    );
    assert_eq!(
        text(&[(0.0, 1.0)], 5),
        "NSGA-II: population size must be even"
    );
    assert_eq!(
        text(&[(0.0, 1.0), (2.0, 2.0)], 4),
        "NSGA-II: invalid bounds at dimension 1: min (2) must be < max (2)"
    );
}

#[test]
fn provided_populations_are_checked() {
    let problem = TestProblem;
    let two = &[(-5.0, 5.0), (-5.0, 5.0)];
    let text = |population: Vec<Individual<Vec<R64>, R64>>| {
        NsgaII::<R64>::new(bounds(two), 4)
            .ok()
            .unwrap()
            .init(Some(&problem), Some(population))
            .err()
            .unwrap()
            .message()
    };
    let good = || individual(&[1.0, 1.0], &[1.0, 2.0]);
    assert_eq!(
        text(vec![good()]),
        "NSGA-II: Provided population size (1) does not match expected size (4)"
    );
    assert_eq!(
        text(vec![good(), individual(&[1.0, 1.0], &[1.0]), good(), good()]),
        "NSGA-II: Individual 1 has 1 objectives, expected 2"
    );
    assert_eq!(
        text(vec![
            good(),
            good(),
            individual(&[1.0, 1.0], &[1.0, f64::INFINITY]),
            good()
        ]),
        "NSGA-II: Individual 2 has non-finite objective 1 (NaN or infinite)"
    );
    assert_eq!(
        text(vec![good(), good(), good(), individual(&[1.0], &[1.0, 2.0])]),
        "NSGA-II: Individual 3 has 1 dimensions, expected 2"
    );
    let mut solver = NsgaII::<R64>::new(bounds(two), 4).ok().unwrap();
    let accepted = solver
        .init(Some(&problem), Some(vec![good(), good(), good(), good()]))
        .ok()
        .unwrap();
    assert_eq!(accepted.len(), 4);
    assert_eq!(accepted[0].position, reals(&[1.0, 1.0]));
    assert_eq!(accepted[0].objectives, reals(&[1.0, 2.0]));
    let nothing: Option<&TestProblem> = None;
    assert_eq!(
        solver.init(nothing, None).err().unwrap().message(),
        "NSGA-II: Problem not set"
    );
    assert!(check_individual(0, &good(), 2, &bounds(two)).is_none());
}

#[test]
fn answers_for_new_individuals_are_checked() {
    let admitted = admit_newcomer(reals(&[1.0]), Ok(reals(&[2.0])), 1)
        .ok()
        .unwrap();
    assert_eq!(admitted.position, reals(&[1.0]));
    assert_eq!(admitted.objectives, reals(&[2.0]));
    assert_eq!(admitted.rank, 0);
    assert_eq!(
        admit_newcomer(reals(&[1.0]), Ok(reals(&[2.0])), 2)
            .err()
            .unwrap()
            .message(),
        "NSGA-II: Expected 2 objectives, got 1"
    );
    assert_eq!(
        admit_newcomer(reals(&[1.0]), Err(Error::msg("no")), 2)
            .err()
            .unwrap()
            .message(),
        "no"
    );
    assert_eq!(
        check_offspring(&reals(&[1.0, f64::NEG_INFINITY]))
            .err()
            .unwrap()
            .message(),
        "NSGA-II: Objective 1 is not finite (NaN or infinite) in offspring"
    );
    assert!(check_offspring(&reals(&[1.0])).is_ok());
}

#[test]
fn values_are_placed_crossed_and_mutated() {
    let bound = (R64(-5.0), R64(5.0));
    assert_eq!(place(bound, R64(0.25)), R64(-2.5));
    // parents that hardly differ are passed on
    let same = (R64(1.0), R64(1.0 + 1e-15));
    assert_eq!(cross(same, bound, R64(20.0), R64(0.3)), same);
    // at one half the children are the parents
    let (c1, c2) = cross((R64(1.0), R64(3.0)), bound, R64(20.0), R64(0.5));
    assert_eq!((c1, c2), (R64(1.0), R64(3.0)));
    let (c1, c2) = cross((R64(1.0), R64(3.0)), bound, R64(1.0), R64(0.125));
    assert_eq!((c1, c2), (R64(1.5), R64(2.5)));
    // with a distribution index of zero the children spread without end
    let (c1, c2) = cross((R64(-4.0), R64(4.0)), bound, R64(0.0), R64(0.96875));
    assert_eq!((c1, c2), (R64(-5.0), R64(5.0)));
    // at one half nothing changes
    assert_eq!(mutate(R64(2.0), bound, R64(20.0), R64(0.5)), R64(2.0));
    // at zero the value falls to the lower bound
    assert_eq!(mutate(R64(0.0), bound, R64(0.0), R64(0.0)), R64(-5.0));
}

#[test]
fn random_positions_follow_from_the_words() {
    let mut solver = NsgaII::<R64>::new(bounds(&[(-5.0, 5.0), (0.0, 8.0)]), 4)
        .ok()
        .unwrap()
        .with_rng(script(&[1 << 63, 1 << 62]));
    assert_eq!(solver.random_position(), reals(&[0.0, 2.0]));
}

#[test]
fn tournaments_are_won_by_the_preferred() {
    let mut population = vec![
        individual(&[0.0], &[1.0]),
        individual(&[1.0], &[2.0]),
        individual(&[2.0], &[3.0]),
    ];
    population[0].rank = 1;
    let mut solver = NsgaII::<R64>::new(bounds(&[(-5.0, 5.0)]), 4)
        .ok()
        .unwrap()
        .with_rng(script(&[0, 0, 0, 1]));
    // the second draw repeats the first, so another is drawn
    assert_eq!(solver.tournament_selection(&population), 1);
    assert_eq!(
        NsgaII::<R64>::new(bounds(&[(-5.0, 5.0)]), 4)
            .ok()
            .unwrap()
            .tournament_selection(&population[..1].to_vec()),
        0
    );
}

#[test]
fn fronts_survive_whole_and_the_last_one_by_distance() {
    let mut combined = vec![
        individual(&[0.0], &[6.0, 6.0]),
        individual(&[1.0], &[1.0, 5.0]),
        individual(&[2.0], &[5.0, 1.0]),
        individual(&[3.0], &[2.0, 6.0]),
        individual(&[4.0], &[3.0, 4.5]),
        individual(&[5.0], &[6.0, 2.0]),
    ];
    let survivors = select(&mut combined, 4);
    let positions: Vec<f64> = survivors.iter().map(|i| i.position[0].0).collect();
    assert_eq!(positions.len(), 4);
    // the first front is made of the individuals 1, 2 and 4
    assert_eq!(&positions[..3], &[1.0, 2.0, 4.0]);
    // both of the second front are at its ends, so the first of them survives
    assert_eq!(positions[3], 3.0);
    assert_eq!(combined[0].rank, 2);
    let mut few = vec![individual(&[0.0], &[1.0]), individual(&[1.0], &[2.0])];
    assert_eq!(select(&mut few, 10).len(), 2);
}

#[test]
fn generations_keep_their_size_and_bounds() {
    let problem = TestProblem;
    let mut solver = NsgaII::<R64>::new(bounds(&[(-5.0, 5.0), (-5.0, 5.0)]), 10)
        .ok()
        .unwrap();
    let mut population = solver.init(Some(&problem), None).ok().unwrap();
    for _ in 0..20 {
        population = solver.next_iter(&problem, Some(population)).ok().unwrap();
        assert_eq!(population.len(), 10);
        for individual in &population {
            assert!(individual.position.iter().all(|x| x.0 >= -5.0 && x.0 <= 5.0));
        }
    }
    assert_eq!(
        solver.next_iter(&problem, None).err().unwrap().message(),
        "NSGA-II: No population in state"
    );
    let error = solver.next_iter(&BadProblem, Some(population)).err().unwrap();
    assert_eq!(
        error.message(),
        "NSGA-II: Objective 0 is not finite (NaN or infinite) in offspring"
    );
}

#[test]
fn survivors_are_not_dominated_by_others() {
    let problem = TestProblem;
    let mut solver = NsgaII::<R64>::new(bounds(&[(-5.0, 5.0), (-5.0, 5.0)]), 12)
        .ok()
        .unwrap();
    let population = solver.init(Some(&problem), None).ok().unwrap();
    let mut combined = population.clone();
    let survivors = select(&mut combined, 5);
    assert_eq!(survivors.len(), 5);
    for other in &population {
        let survived = survivors.iter().any(|s| s.position == other.position);
        for survivor in &survivors {
            assert!(
                survived
                    || !NsgaII::<R64, StdRng>::dominates(&other.objectives, &survivor.objectives)
            );
        }
    }
}

#[test]
fn decimals_are_exact() {
    assert_eq!(R64::decimal(9, 1), R64(0.9));
    assert_eq!(R64::decimal(1, 10), R64(1e-10));
    assert_eq!(R64(2.0).widen(), R64(2.0));
    assert_eq!(R64::cast(R64(2.0)), Some(R64(2.0)));
}

/// The word that stands for a fraction.
fn word(fraction: f64) -> u64 {
    (fraction * 18446744073709551616.0) as u64
}

#[test]
fn draws_decide_whether_values_cross_and_mutate() {
    let parents = (R64(1.0), R64(3.0));
    let bound = (R64(-5.0), R64(5.0));
    let crossed = (R64(1.5), R64(2.5));
    assert_eq!(cross_at(parents, bound, R64(1.0), R64(0.75), R64(0.125)), parents);
    assert_eq!(cross_at(parents, bound, R64(1.0), R64(0.5), R64(0.125)), crossed);
    assert!(close((R64(1.0), R64(1.0))));
    assert!(!close(parents));
    let x = R64(0.0);
    let at = |t: f64| mutate_at(x, bound, R64(0.5), R64(1.0), R64(t), R64(0.0));
    assert_eq!(at(0.75), x);
    assert_eq!(at(0.5), R64(-5.0));
    assert_eq!(at(0.25), R64(-5.0));
}

#[test]
fn children_follow_from_the_words() {
    let children = |fractions: &[f64], a: &[f64], b: &[f64]| {
        let words: Vec<u64> = fractions.iter().map(|f| word(*f)).collect();
        NsgaII::<R64>::new(bounds(&[(-5.0, 5.0), (-5.0, 5.0)]), 4)
            .ok()
            .unwrap()
            .with_crossover_probability(R64(0.5))
            .with_crossover_eta(R64(1.0))
            .with_rng(script(&words))
            .crossover(&reals(a), &reals(b))
    };
    // the first draw exceeds the probability
    assert_eq!(
        children(&[0.75], &[1.0, 1.0], &[3.0, 3.0]),
        (reals(&[1.0, 1.0]), reals(&[3.0, 3.0]))
    );
    // the first values do not cross, the second do
    assert_eq!(
        children(&[0.25, 0.75, 0.25, 0.125], &[1.0, 1.0], &[3.0, 3.0]),
        (reals(&[1.0, 1.5]), reals(&[3.0, 2.5]))
    );
    // values that hardly differ take one draw only
    assert_eq!(
        children(&[0.25, 0.25, 0.25, 0.125], &[2.0, 1.0], &[2.0, 3.0]),
        (reals(&[2.0, 1.5]), reals(&[2.0, 2.5]))
    );
    let mut solver = NsgaII::<R64>::new(bounds(&[(-5.0, 5.0), (-5.0, 5.0)]), 4)
        .ok()
        .unwrap()
        .with_mutation_probability(R64(0.5))
        .with_mutation_eta(R64(1.0))
        .with_rng(script(&[word(0.75), word(0.25), 0]));
    assert_eq!(solver.mutate(&reals(&[1.0, 0.0])), reals(&[1.0, -5.0]));
}

#[test]
fn certain_events_always_take_place() {
    let mut solver = NsgaII::<R64>::new(bounds(&[(-5.0, 5.0)]), 4)
        .ok()
        .unwrap()
        .with_crossover_probability(R64(1.0))
        .with_mutation_probability(R64(1.0))
        .with_mutation_eta(R64(1.0))
        .with_rng(script(&[u64::MAX, 0]));
    assert_eq!(solver.mutate(&reals(&[0.0])), reals(&[-5.0]));
}

fn next_generations(seed: u64, count: usize) -> Vec<Vec<Individual<Vec<R64>, R64>>> {
    let mut solver = NsgaII::<R64>::new(bounds(&[(-5.0, 5.0), (-5.0, 5.0)]), 4)
        .ok()
        .unwrap()
        .with_rng(StdRng::seed_from_u64(seed));
    let mut generations = vec![solver.init(Some(&TestProblem), None).ok().unwrap()];
    for _ in 0..count {
        let people = generations[generations.len() - 1].clone();
        generations.push(solver.next_iter(&TestProblem, Some(people)).ok().unwrap());
    }
    generations
}

#[test]
fn generations_follow_from_the_generator() {
    let positions = |seed: u64| -> Vec<Vec<R64>> {
        next_generations(seed, 3)
            .iter()
            .flatten()
            .map(|one| one.position.clone())
            .collect()
    };
    assert_eq!(positions(5), positions(5));
    assert_ne!(positions(5), positions(6));
}

#[test]
fn least_objectives_never_rise_and_dominators_survive() {
    for seed in 0..20 {
        let generations = next_generations(seed, 6);
        for pair in generations.windows(2) {
            for k in 0..2 {
                let least = |people: &Vec<Individual<Vec<R64>, R64>>| {
                    people
                        .iter()
                        .map(|one| one.objectives[k].0)
                        .fold(f64::INFINITY, f64::min)
                };
                assert!(least(&pair[1]) <= least(&pair[0]));
            }
            for old in &pair[0] {
                for new in &pair[1] {
                    if NsgaII::<R64>::dominates(&old.objectives, &new.objectives) {
                        assert!(pair[1].iter().any(|one| one.position == old.position));
                    }
                }
            }
        }
    }
}

#[test]
fn children_are_bred_within_the_bounds() {
    let mut solver = NsgaII::<R64>::new(bounds(&[(-5.0, 5.0), (-5.0, 5.0)]), 4)
        .ok()
        .unwrap()
        .with_rng(StdRng::seed_from_u64(8));
    let people = vec![
        individual(&[-5.0, 5.0], &[1.0, 2.0]),
        individual(&[0.0, 1.0], &[2.0, 1.0]),
        individual(&[4.0, -3.0], &[3.0, 3.0]),
    ];
    for _ in 0..50 {
        let (a, b) = solver.breed(&people);
        assert_eq!((a.len(), b.len()), (2, 2));
        assert!(a.iter().chain(b.iter()).all(|x| -5.0 <= x.0 && x.0 <= 5.0));
    }
}

#[test]
fn new_individuals_take_a_word_for_every_dimension() {
    let mut solver = NsgaII::<R64>::new(bounds(&[(-5.0, 5.0), (0.0, 8.0)]), 4)
        .ok()
        .unwrap()
        .with_rng(script(&[1 << 63, 1 << 62]));
    let people = solver.init(Some(&TestProblem), None).ok().unwrap();
    assert_eq!(people.len(), 4);
    assert_eq!(solver.rng.next, 8);
    assert!(solver.init(Some(&TestProblem), Some(people)).is_ok());
    assert_eq!(solver.rng.next, 8);
    assert!(solver.init(Some(&BadProblem), None).is_err());
    assert_eq!(solver.rng.next, 10);
}

#[test]
fn ends_of_objectives_are_infinitely_distant() {
    let solver = NsgaII::<R64>::new(bounds(&[(-5.0, 5.0)]), 4).ok().unwrap();
    let mut people = vec![
        individual(&[0.0], &[1.0, 9.0]),
        individual(&[1.0], &[2.0, 6.0]),
        individual(&[2.0], &[4.0, 4.0]),
        individual(&[3.0], &[9.0, 1.0]),
    ];
    solver.calculate_crowding_distance(&mut people, &vec![0, 1, 2, 3]);
    assert_eq!(people[0].crowding_distance.0, f64::INFINITY);
    assert_eq!(people[3].crowding_distance.0, f64::INFINITY);
    assert_eq!(people[1].crowding_distance.0, 3.0 / 8.0 + 5.0 / 8.0);
    assert_eq!(people[2].crowding_distance.0, 7.0 / 8.0 + 5.0 / 8.0);
    // of the individuals of one rank the most distant survive
    let survivors = select(&mut people, 3);
    let positions: Vec<f64> = survivors.iter().map(|one| one.position[0].0).collect();
    assert_eq!(positions, vec![0.0, 3.0, 2.0]);
}

#[test]
fn higher_indices_mutate_less() {
    let bound = (R64(-5.0), R64(5.0));
    for k in 0..40 {
        let u = R64(k as f64 / 40.0);
        for x in [-4.0, 0.0, 1.5] {
            let distance = |eta: f64| (mutate(R64(x), bound, R64(eta), u).0 - x).abs();
            let distances: Vec<f64> = [0.0, 1.0, 5.0, 20.0, 100.0]
                .iter()
                .map(|eta| distance(*eta))
                .collect();
            for pair in distances.windows(2) {
                assert!(pair[1] <= pair[0] + 1e-12);
            }
        }
    }
}
