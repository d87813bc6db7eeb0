use argmin::particleswarm::initialization::{assemble, select_cheapest};
use argmin::particleswarm::motion::{compose_velocity, hold, Weights};
use argmin::particleswarm::standing::Standing;
use argmin::random::unit_draw;
use std::cell::Cell;
use argmin::particleswarm::{
    AccelerationCoefficientStrategy, InertiaWeightStrategy, InitializationStrategy,
    MutationApplication, MutationStrategy, Particle, ParticleSwarm, Position, SwarmState,
};
use argmin::{
    ArgminFloat, CostFunction, Error, NoiseSource, RandomSource, RangeSource, Real,
};
use argmin_math::{
    ArgminAdd, ArgminL2Norm, ArgminMinMax, ArgminMul, ArgminRandom, ArgminSub, ArgminZeroLike,
};
use rand::rngs::StdRng;
use rand::{Rng, SeedableRng};
use rand_distr::{Cauchy, Distribution, Normal};

/// Double precision floating point numbers.
#[derive(Clone, Copy, Debug, PartialEq)]
struct R64(f64);

impl Real for R64 {
    fn less(self, other: Self) -> bool {
        self.0 < other.0
    }

    fn same(self, other: Self) -> bool {
        self.0 == other.0
    }

    fn plus(self, other: Self) -> Self {
        R64(self.0 + other.0)
    }

    fn minus(self, other: Self) -> Self {
        R64(self.0 - other.0)
    }

    fn times(self, other: Self) -> Self {
        R64(self.0 * other.0)
    }

    fn over(self, other: Self) -> Self {
        R64(self.0 / other.0)
    }

    fn magnitude(self) -> Self {
        R64(self.0.abs())
    }

    fn root(self) -> Self {
        R64(self.0.sqrt())
    }

    fn power(self, exponent: Self) -> Self {
        R64(self.0.powf(exponent.0))
    }

    fn infinity() -> Self {
        R64(f64::INFINITY)
    }

    fn neg_infinity() -> Self {
        R64(f64::NEG_INFINITY)
    }

    fn epsilon() -> Self {
        R64(f64::EPSILON)
    }

    fn decimal(mantissa: u64, places: u32) -> Self {
        R64(format!("{}e-{}", mantissa, places).parse().unwrap())
    }

    fn from_u64(n: u64) -> Self {
        R64(n as f64)
    }

    fn unit(k: u64) -> Self {
        R64(k as f64 / 9007199254740992.0)
    }

    fn text(self) -> String {
        format!("{}", self.0)
    }

    fn order_laws(_a: Self, _b: Self, _c: Self) {}

    fn subtraction_laws(_a: Self, _mantissa: u64, _places: u32) {}
}

impl ArgminFloat for R64 {
    type Wide = R64;

    fn conversion_laws(_a: Self, _b: Self, _wide: R64) {}

    fn range_laws(_low: Self, _high: Self, _a: Self, _b: Self) {}

    fn unit_laws(_k: u64) {}

    fn difference_laws(_low: Self, _high: Self, _a: Self, _b: Self) {}

    fn fraction_laws(_a: Self, _x: Self, _z: Self) {}

    fn quotient_laws(_x: Self, _y: Self) {}

    fn counting_laws(_n: u64, _a: Self, _b: Self) {}

    fn logistic_laws(_z: Self) {}

    fn constant_laws() {}

    fn span_laws(_low: Self, _high: Self, _c: Self) {}

    fn infinity_laws(_low: Self, _high: Self, _z: Self) {}

    fn step_laws(_low: R64, _high: R64, _y: R64, _a: R64, _b: R64) {}

    fn wide_order_laws(_a: R64, _b: R64) {}

    fn closeness_laws(_x: Self, _a: Self, _b: Self) {}

    fn widen(self) -> R64 {
        self
    }

    fn narrow(wide: R64) -> R64 {
        wide
    }

    fn cast(wide: R64) -> Option<R64> {
        Some(wide)
    }
}

impl RangeSource<R64> for StdRng {
    fn between(&mut self, low: R64, high: R64) -> R64 {
        R64(self.random_range(low.0..high.0))
    }
}

impl NoiseSource<R64> for StdRng {
    fn normal(&mut self, deviation: R64) -> R64 {
        R64(Normal::new(0.0, deviation.0).unwrap().sample(self))
    }

    fn cauchy(&mut self, scale: R64) -> R64 {
        R64(Cauchy::new(0.0, scale.0).unwrap().sample(self))
    }
}

fn reals(values: &[f64]) -> Vec<R64> {
    values.iter().map(|x| R64(*x)).collect()
}

fn square(low: f64, high: f64) -> (Vec<R64>, Vec<R64>) {
    (reals(&[low, low]), reals(&[high, high]))
}

fn swarm(num_particles: usize) -> ParticleSwarm<Vec<R64>, R64, StdRng> {
    ParticleSwarm::new(square(-1.0, 1.0), num_particles)
}

/// The sum of the squares of the coordinates.
struct Bowl;

impl CostFunction<Vec<R64>, R64> for Bowl {
    fn cost(&self, param: &Vec<R64>) -> Result<R64, Error> {
        Ok(R64(param.iter().map(|x| x.0 * x.0).sum()))
    }
}

/// No cost at all.
struct Broken;

impl CostFunction<Vec<R64>, R64> for Broken {
    fn cost(&self, _param: &Vec<R64>) -> Result<R64, Error> {
        Err(Error::msg("broken"))
    }
}

/// A generator without chance: its words are listed, it draws the middle of a range, and its noise
/// is the deviation itself.
struct Script {
    words: Vec<u64>,
    next: usize,
}

impl RandomSource for Script {
    fn word(&mut self) -> u64 {
        let word = self.words[self.next % self.words.len()];
        self.next += 1;
        word
    }

    fn index_below(&mut self, bound: usize) -> usize {
        (self.word() % bound as u64) as usize
    }
}

impl RangeSource<R64> for Script {
    fn between(&mut self, low: R64, high: R64) -> R64 {
        R64((low.0 + high.0) / 2.0)
    }
}

impl NoiseSource<R64> for Script {
    fn normal(&mut self, deviation: R64) -> R64 {
        deviation
    }

    fn cauchy(&mut self, scale: R64) -> R64 {
        R64(-scale.0)
    }
}

fn script(words: &[u64]) -> Script {
    Script {
        words: words.to_vec(),
        next: 0,
    }
}

#[test]
fn test_new() {
    let lower_bound = reals(&[-1.0, -1.0]);
    let upper_bound = reals(&[1.0, 1.0]);
    let pso: ParticleSwarm<_, R64, StdRng> =
        ParticleSwarm::new((lower_bound.clone(), upper_bound.clone()), 40);
    let ParticleSwarm {
        inertia_strategy,
        acceleration_strategy,
        bounds,
        num_particles,
        ..
    } = pso;

    // Check default inertia strategy
    match inertia_strategy {
        InertiaWeightStrategy::Constant(weight) => {
            assert!((weight.0 - 1.0f64 / (2.0 * 2.0f64.ln())).abs() <= f64::EPSILON);
        }
        _ => panic!("Expected Constant inertia strategy"),
    }

    // Check default acceleration strategy
    match acceleration_strategy {
        AccelerationCoefficientStrategy::Constant { cognitive, social } => {
            assert!((cognitive.0 - (0.5f64 + 2.0f64.ln())).abs() <= f64::EPSILON);
            assert!((social.0 - (0.5f64 + 2.0f64.ln())).abs() <= f64::EPSILON);
        }
        _ => panic!("Expected Constant acceleration strategy"),
    }

    assert_eq!(lower_bound[0].0.to_ne_bytes(), bounds.0[0].0.to_ne_bytes());
    assert_eq!(lower_bound[1].0.to_ne_bytes(), bounds.0[1].0.to_ne_bytes());
    assert_eq!(upper_bound[0].0.to_ne_bytes(), bounds.1[0].0.to_ne_bytes());
    assert_eq!(upper_bound[1].0.to_ne_bytes(), bounds.1[1].0.to_ne_bytes());
    assert_eq!(num_particles, 40);
}

#[test]
fn test_with_inertia_factor() {
    for inertia in [0.0, f64::EPSILON, 0.5, 1.0, 1.2, 3.0] {
        let res = swarm(40).with_inertia_factor(R64(inertia));
        assert!(res.is_ok());
        match res.ok().unwrap().inertia_strategy {
            InertiaWeightStrategy::Constant(weight) => {
                assert_eq!(weight.0.to_ne_bytes(), inertia.to_ne_bytes());
            }
            _ => panic!("Expected Constant inertia strategy"),
        }
    }

    for inertia in [-f64::EPSILON, -0.5, -1.0, -1.2, -3.0] {
        let res = swarm(40).with_inertia_factor(R64(inertia));
        assert_eq!(
            res.err().unwrap().message(),
            "Invalid parameter: \"`ParticleSwarm`: inertia factor must be >=0.\""
        );
    }
}

#[test]
fn test_with_cognitive_factor() {
    for cognitive in [0.0, f64::EPSILON, 0.5, 1.0, 1.2, 3.0] {
        let res = swarm(40).with_cognitive_factor(R64(cognitive));
        assert!(res.is_ok());
        match res.ok().unwrap().acceleration_strategy {
            AccelerationCoefficientStrategy::Constant { cognitive: c, .. } => {
                assert_eq!(c.0.to_ne_bytes(), cognitive.to_ne_bytes());
            }
            _ => panic!("Expected Constant acceleration strategy"),
        }
    }

    for cognitive in [-f64::EPSILON, -0.5, -1.0, -1.2, -3.0] {
        let res = swarm(40).with_cognitive_factor(R64(cognitive));
        assert_eq!(
            res.err().unwrap().message(),
            "Invalid parameter: \"`ParticleSwarm`: cognitive factor must be >=0.\""
        );
    }
}

#[test]
fn test_with_social_factor() {
    for social in [0.0, f64::EPSILON, 0.5, 1.0, 1.2, 3.0] {
        let res = swarm(40).with_social_factor(R64(social));
        assert!(res.is_ok());
        match res.ok().unwrap().acceleration_strategy {
            AccelerationCoefficientStrategy::Constant { social: s, .. } => {
                assert_eq!(s.0.to_ne_bytes(), social.to_ne_bytes());
            }
            _ => panic!("Expected Constant acceleration strategy"),
        }
    }

    for social in [-f64::EPSILON, -0.5, -1.0, -1.2, -3.0] {
        let res = swarm(40).with_social_factor(R64(social));
        assert_eq!(
            res.err().unwrap().message(),
            "Invalid parameter: \"`ParticleSwarm`: social factor must be >=0.\""
        );
    }
}

#[test]
fn test_with_tvac() {
    // Test valid parameters
    let res = swarm(40).with_tvac(R64(2.5), R64(0.5), R64(0.5), R64(2.5), 1000);
    assert!(res.is_ok());
    let pso = res.ok().unwrap();

    // Verify strategy type and values
    match pso.acceleration_strategy {
        AccelerationCoefficientStrategy::TimeVarying {
            c1_initial,
            c1_final,
            c2_initial,
            c2_final,
        } => {
            assert_eq!(c1_initial.0.to_ne_bytes(), 2.5f64.to_ne_bytes());
            assert_eq!(c1_final.0.to_ne_bytes(), 0.5f64.to_ne_bytes());
            assert_eq!(c2_initial.0.to_ne_bytes(), 0.5f64.to_ne_bytes());
            assert_eq!(c2_final.0.to_ne_bytes(), 2.5f64.to_ne_bytes());
        }
        _ => panic!("Expected TimeVarying acceleration strategy"),
    }
    assert_eq!(pso.max_iterations, 1000);

    let res = swarm(40).with_tvac(R64(0.0), R64(0.0), R64(0.0), R64(0.0), 500);
    assert!(res.is_ok());

    let res = swarm(40).with_tvac(R64(-1.0), R64(0.5), R64(0.5), R64(2.5), 1000);
    assert!(res.is_err());

    let res = swarm(40).with_tvac(R64(2.5), R64(-0.5), R64(0.5), R64(2.5), 1000);
    assert!(res.is_err());

    let res = swarm(40).with_tvac(R64(2.5), R64(0.5), R64(-0.5), R64(2.5), 1000);
    assert!(res.is_err());

    let res = swarm(40).with_tvac(R64(2.5), R64(0.5), R64(0.5), R64(-2.5), 1000);
    assert!(res.is_err());
}

#[test]
fn test_with_velocity_clamping() {
    let res = swarm(40).with_velocity_clamping(R64(0.2));
    assert!(res.is_ok());

    let res = swarm(40).with_velocity_clamping(R64(1.0));
    assert!(res.is_ok());

    let res = swarm(40).with_velocity_clamping(R64(0.0));
    assert!(res.is_err());

    let res = swarm(40).with_velocity_clamping(R64(1.5));
    assert!(res.is_err());
}

#[test]
fn test_with_initialization_strategy() {
    let pso = swarm(40);
    assert_eq!(
        pso.initialization_strategy,
        InitializationStrategy::UniformRandom
    );

    let pso = swarm(40).with_initialization_strategy(InitializationStrategy::LatinHypercube);
    assert_eq!(
        pso.initialization_strategy,
        InitializationStrategy::LatinHypercube
    );

    let pso = swarm(40).with_initialization_strategy(InitializationStrategy::OppositionBased);
    assert_eq!(
        pso.initialization_strategy,
        InitializationStrategy::OppositionBased
    );
}

#[test]
fn test_with_mutation() {
    let res = swarm(40).with_mutation(
        MutationStrategy::Gaussian(R64(0.1)),
        R64(0.05),
        MutationApplication::GlobalBestOnly,
    );
    assert!(res.is_ok());

    let res = swarm(40).with_mutation(
        MutationStrategy::Cauchy(R64(0.1)),
        R64(0.05),
        MutationApplication::AllParticles,
    );
    assert!(res.is_ok());

    let res = swarm(40).with_mutation(
        MutationStrategy::Gaussian(R64(0.1)),
        R64(0.05),
        MutationApplication::BelowAverage,
    );
    assert!(res.is_ok());

    let res = swarm(40).with_mutation(
        MutationStrategy::Cauchy(R64(0.1)),
        R64(0.05),
        MutationApplication::Disabled,
    );
    assert!(res.is_ok());

    let res = swarm(40).with_mutation(
        MutationStrategy::Cauchy(R64(0.1)),
        R64(1.5),
        MutationApplication::GlobalBestOnly,
    );
    assert!(res.is_err());
}

#[test]
fn test_with_chaotic_inertia() {
    let res = swarm(40).with_chaotic_inertia(R64(0.4), R64(0.9));
    assert!(res.is_ok());

    let res = swarm(40).with_chaotic_inertia(R64(0.9), R64(0.4));
    assert!(res.is_err());
}

#[test]
fn test_with_velocity_mutation() {
    let res = swarm(40).with_velocity_mutation(R64(0.001));
    assert!(res.is_ok());

    let res = swarm(40).with_velocity_mutation(R64(-0.1));
    assert!(res.is_err());
}

struct CountingProblem {
    counter: std::sync::Arc<std::sync::Mutex<usize>>,
}

impl CostFunction<Vec<R64>, R64> for CountingProblem {
    fn cost(&self, param: &Vec<R64>) -> Result<R64, Error> {
        *self.counter.lock().unwrap() += 1;
        Ok(R64(param.iter().map(|x| x.0 * x.0).sum()))
    }
}

#[test]
fn test_mutation_application_strategies() {
    let run = |application: MutationApplication| {
        let mut pso: ParticleSwarm<Vec<R64>, R64, StdRng> =
            ParticleSwarm::new(square(-5.0, 5.0), 20)
                .with_mutation(
                    MutationStrategy::Gaussian(R64(0.1)),
                    R64(1.0), // Always mutate for testing
                    application,
                )
                .ok()
                .unwrap();
        let problem = CountingProblem {
            counter: std::sync::Arc::new(std::sync::Mutex::new(0)),
        };
        let mut state = pso.init(&problem, SwarmState::new()).ok().unwrap();
        for _ in 0..5 {
            state = pso.next_iter(&problem, state).ok().unwrap();
        }
        let asked = *problem.counter.lock().unwrap();
        (state, asked)
    };

    let (state_global_best, asked) = run(MutationApplication::GlobalBestOnly);
    assert_eq!(asked, 20 + 5 * (20 + 1));
    let (state_all_particles, asked) = run(MutationApplication::AllParticles);
    assert_eq!(asked, 20 + 5 * (20 + 20));
    let (state_below_avg, asked) = run(MutationApplication::BelowAverage);
    assert!(asked > 20 + 5 * 20 && asked < 20 + 5 * (20 + 20));

    // All strategies should have valid populations and costs
    assert!(state_global_best.population.is_some());
    assert!(state_all_particles.population.is_some());
    assert!(state_below_avg.population.is_some());

    assert!(state_global_best.cost.0 >= 0.0);
    assert!(state_all_particles.cost.0 >= 0.0);
    assert!(state_below_avg.cost.0 >= 0.0);
}

#[test]
fn test_initialize_positions_and_velocities() {
    let num_particles = 100;
    let mut pso = swarm(num_particles);

    let (positions, velocities) = pso.initialize_positions_and_velocities();
    assert_eq!(positions.len(), num_particles);
    assert_eq!(velocities.len(), num_particles);

    for pos in positions {
        for elem in pos {
            assert!(elem.0 <= 1.0f64);
            assert!(elem.0 >= -1.0f64);
        }
    }

    for velo in velocities {
        for elem in velo {
            assert!(elem.0 <= 2.0f64);
            assert!(elem.0 >= -2.0f64);
        }
    }
}

struct ListedCosts {
    counter: std::sync::Arc<std::sync::Mutex<usize>>,
    values: [f64; 10],
}

impl CostFunction<Vec<R64>, R64> for ListedCosts {
    fn cost(&self, _param: &Vec<R64>) -> Result<R64, Error> {
        let mut counter = self.counter.lock().unwrap();
        let cost = self.values[*counter];
        *counter += 1;
        Ok(R64(cost))
    }
}

#[test]
fn test_initialize_particles() {
    let num_particles = 10;
    let mut pso = swarm(num_particles);

    let mut values = [1.0, 4.0, 10.0, 2.0, -3.0, 8.0, 4.4, 8.1, 6.4, 4.5];

    let problem = ListedCosts {
        counter: std::sync::Arc::new(std::sync::Mutex::new(0)),
        values,
    };

    values.sort_by(|a, b| a.partial_cmp(b).unwrap_or(std::cmp::Ordering::Equal));

    let particles = pso.initialize_particles(&problem).ok().unwrap();
    assert_eq!(particles.len(), num_particles);

    // at least assure that they are ordered correctly and have the correct cost.
    for (particle, cost) in particles.iter().zip(values.iter()) {
        assert_eq!(particle.cost.0.to_ne_bytes(), cost.to_ne_bytes());
    }
}

#[test]
fn test_particle_new() {
    let init_position = reals(&[0.2, 3.0]);
    let init_cost = R64(12.0);
    let init_velocity = reals(&[1.2, -1.3]);

    let particle: Particle<Vec<R64>, R64> =
        Particle::new(init_position.clone(), init_cost, init_velocity.clone());
    let Particle {
        position,
        velocity,
        cost,
        best_position,
        best_cost,
    } = particle;

    assert_eq!(init_position, position);
    assert_eq!(init_position, best_position);
    assert_eq!(init_cost.0.to_ne_bytes(), cost.0.to_ne_bytes());
    assert_eq!(init_cost.0.to_ne_bytes(), best_cost.0.to_ne_bytes());
    assert_eq!(init_velocity, velocity);
}

fn population_state(population: Vec<Particle<Vec<R64>, R64>>) -> SwarmState<Vec<R64>, R64> {
    SwarmState {
        population: Some(population),
        ..SwarmState::new()
    }
}

#[test]
fn test_init_provided_population_wrong_size() {
    let mut pso = swarm(40);
    let state = population_state(vec![Particle::new(
        reals(&[1.0, 2.0]),
        R64(12.0),
        reals(&[0.1, 0.3]),
    )]);
    let res = pso.init(&Bowl, state);
    assert_eq!(
        res.err().unwrap().message(),
        "Invalid parameter: \"`ParticleSwarm`: Provided list of particles is of length 1, expected 40\""
    );
}

#[test]
fn test_init_provided_population_correct_size() {
    let particle_a = Particle::new(reals(&[1.0, 2.0]), R64(12.0), reals(&[0.1, 0.3]));
    let particle_b = Particle::new(reals(&[2.0, 3.0]), R64(10.0), reals(&[0.2, 0.4]));
    let mut pso = swarm(2);
    let state = population_state(vec![particle_a.clone(), particle_b.clone()]);
    let res = pso.init(&Bowl, state);
    assert!(res.is_ok());
    let state = res.ok().unwrap();
    assert_eq!(state.individual.unwrap(), particle_b);
    assert_eq!(state.cost, R64(10.0));
    let population = state.population.unwrap();
    // assert that it was sorted!
    assert_eq!(population[0], particle_b);
    assert_eq!(population[1], particle_a);
}

#[test]
fn test_init_random_population() {
    let mut pso = swarm(40);
    let res = pso.init(&Bowl, SwarmState::new());
    assert!(res.is_ok());
    let state = res.ok().unwrap();
    assert!(state.individual.is_some());
    let population = state.population.unwrap();
    assert_eq!(population.len(), 40);
}

struct CyclicCosts {
    counter: std::sync::Mutex<usize>,
    values: [f64; 10],
}

impl CostFunction<Vec<R64>, R64> for CyclicCosts {
    fn cost(&self, _param: &Vec<R64>) -> Result<R64, Error> {
        let cost = self.values[*self.counter.lock().unwrap() % 10];
        *self.counter.lock().unwrap() += 1;
        Ok(R64(cost))
    }
}

#[test]
fn test_next_iter() {
    let values = [1.0, 4.0, 10.0, 2.0, -3.0, 8.0, 4.4, 8.1, 6.4, 4.4];

    let problem = CyclicCosts {
        counter: std::sync::Mutex::new(0),
        values,
    };

    // setup
    let mut pso = swarm(100);

    // init
    let mut state = pso.init(&problem, SwarmState::new()).ok().unwrap();

    // next_iter
    for _ in 0..200 {
        state = pso.next_iter(&problem, state).ok().unwrap();
        let population = state.population.as_ref().unwrap();
        assert_eq!(population.len(), 100);
        for particle in population {
            for x in particle.position.iter() {
                assert!(x.0 <= 1.0);
                assert!(x.0 >= -1.0);
            }
        }
        assert_eq!(state.cost.0.to_ne_bytes(), (-3.0f64).to_ne_bytes());
    }
}

#[test]
fn defaults_of_the_strategies() {
    assert_eq!(
        InitializationStrategy::default(),
        InitializationStrategy::UniformRandom
    );
    assert_eq!(
        MutationStrategy::<R64>::default(),
        MutationStrategy::Disabled
    );
    assert_eq!(
        MutationApplication::default(),
        MutationApplication::Disabled
    );
    let pso = swarm(3);
    assert_eq!(pso.name(), "Particle Swarm Optimization");
    assert_eq!(pso.max_iterations, 1000);
    assert_eq!(pso.velocity_clamp_factor, None);
    assert_eq!(pso.velocity_mutation_threshold, None);
    assert_eq!(pso.mutation_strategy, MutationStrategy::Disabled);
    assert_eq!(pso.mutation_application, MutationApplication::Disabled);
    assert_eq!(pso.mutation_probability, R64(0.0));
    let copy = pso.clone();
    assert_eq!(copy.bounds, pso.bounds);
    assert_eq!(copy.num_particles, 3);
}

#[test]
fn refused_settings_say_why() {
    let text = |res: Result<ParticleSwarm<Vec<R64>, R64, StdRng>, Error>| {
        res.err().unwrap().message()
    };
    assert_eq!(
        text(swarm(4).with_chaotic_inertia(R64(0.4), R64(0.4))),
        "Invalid parameter: \"`ParticleSwarm`: chaotic inertia range must satisfy 0 <= w_min < w_max.\""
    );
    assert_eq!(
        text(swarm(4).with_tvac(R64(-1.0), R64(0.0), R64(0.0), R64(0.0), 1)),
        "Invalid parameter: \"`ParticleSwarm`: TVAC parameters must be >=0.\""
    );
    assert_eq!(
        text(swarm(4).with_velocity_clamping(R64(0.0))),
        "Invalid parameter: \"`ParticleSwarm`: velocity clamp factor must be in (0, 1].\""
    );
    assert_eq!(
        text(swarm(4).with_velocity_mutation(R64(-1.0))),
        "Invalid parameter: \"`ParticleSwarm`: velocity mutation threshold must be >=0.\""
    );
    assert_eq!(
        text(swarm(4).with_mutation(
            MutationStrategy::Disabled,
            R64(-0.5),
            MutationApplication::Disabled
        )),
        "Invalid parameter: \"`ParticleSwarm`: mutation probability must be in [0, 1].\""
    );
}

#[test]
fn factors_replace_time_varying_coefficients() {
    let pso = swarm(4)
        .with_tvac(R64(1.0), R64(1.0), R64(1.0), R64(1.0), 10)
        .ok()
        .unwrap()
        .with_cognitive_factor(R64(3.0))
        .ok()
        .unwrap();
    match pso.acceleration_strategy {
        AccelerationCoefficientStrategy::Constant { cognitive, social } => {
            assert_eq!(cognitive, R64(3.0));
            assert_eq!(social, R64(0.5 + 2.0f64.ln()));
        }
        _ => panic!("Expected Constant acceleration strategy"),
    }
}

#[test]
fn coefficients_vary_with_time() {
    let pso = swarm(4)
        .with_tvac(R64(2.5), R64(0.5), R64(0.5), R64(2.5), 1000)
        .ok()
        .unwrap();
    assert_eq!(pso.get_acceleration_coefficients(0), (R64(2.5), R64(0.5)));
    assert_eq!(pso.get_acceleration_coefficients(500), (R64(1.5), R64(1.5)));
    assert_eq!(pso.get_acceleration_coefficients(1000), (R64(0.5), R64(2.5)));
}

#[test]
fn inertia_follows_the_logistic_map() {
    let mut pso = swarm(4)
        .with_chaotic_inertia(R64(0.0), R64(2.0))
        .ok()
        .unwrap();
    let state = 4.0 * 0.7 * (1.0 - 0.7);
    assert_eq!(pso.get_inertia_weight(), R64(2.0 * state));
    assert_eq!(
        pso.get_inertia_weight(),
        R64(2.0 * (4.0 * state * (1.0 - state)))
    );
    let mut constant = swarm(4).with_inertia_factor(R64(0.5)).ok().unwrap();
    assert_eq!(constant.get_inertia_weight(), R64(0.5));
    assert_eq!(constant.get_inertia_weight(), R64(0.5));
}

#[test]
fn positions_are_computed_coordinate_by_coordinate() {
    let a = reals(&[1.0, -2.0]);
    let b = reals(&[3.0, 5.0]);
    assert_eq!(Position::plus(&a, &b), reals(&[4.0, 3.0]));
    assert_eq!(Position::minus(&a, &b), reals(&[-2.0, -7.0]));
    assert_eq!(Position::times(&a, R64(2.0)), reals(&[2.0, -4.0]));
    assert_eq!(Position::zero_like(&a), reals(&[0.0, 0.0]));
    assert_eq!(Position::duplicate(&a), a);
    assert_eq!(Position::l2_norm(&reals(&[3.0, 4.0])), R64(5.0));
    let c = reals(&[2.0, f64::NAN]);
    assert_eq!(Position::<R64>::lower(&a, &c)[0], R64(1.0));
    assert_eq!(Position::<R64>::upper(&c, &a), reals(&[2.0, -2.0]));
    assert_eq!(
        hold(&reals(&[7.0, -7.0]), &reals(&[-1.0, -1.0]), &reals(&[1.0, 1.0])),
        reals(&[1.0, -1.0])
    );
}

#[test]
fn positions_are_those_of_the_vector_arithmetic_of_argmin_math() {
    let a = vec![0.1, -2.5, 7.0];
    let b = vec![0.3, 1.25, -7.5];
    let (ra, rb) = (reals(&a), reals(&b));
    assert_eq!(Position::plus(&ra, &rb), reals(&a.add(&b)));
    assert_eq!(Position::minus(&ra, &rb), reals(&a.sub(&b)));
    assert_eq!(Position::times(&ra, R64(0.7)), reals(&a.mul(&0.7)));
    assert_eq!(
        Position::<R64>::lower(&ra, &rb),
        reals(&<Vec<f64> as ArgminMinMax>::min(&a, &b))
    );
    assert_eq!(
        Position::<R64>::upper(&ra, &rb),
        reals(&<Vec<f64> as ArgminMinMax>::max(&a, &b))
    );
    assert_eq!(Position::zero_like(&ra), reals(&ArgminZeroLike::zero_like(&a)));
    assert_eq!(
        Position::l2_norm(&ra),
        R64(<Vec<f64> as ArgminL2Norm<f64>>::l2_norm(&a))
    );
    let mut first = StdRng::seed_from_u64(17);
    let mut second = StdRng::seed_from_u64(17);
    assert_eq!(
        <Vec<R64> as Position<R64>>::rand_from_range(&ra, &rb, &mut first),
        reals(&<Vec<f64> as ArgminRandom>::rand_from_range(
            &a,
            &b,
            &mut second
        ))
    );
}

#[test]
fn random_positions_are_between_their_bounds() {
    let mut rng = StdRng::seed_from_u64(5);
    let a = reals(&[-1.0, 4.0, 7.0]);
    let b = reals(&[1.0, 2.0, 7.0]);
    for _ in 0..50 {
        let r = Vec::<R64>::rand_from_range(&a, &b, &mut rng);
        assert!(r[0].0 >= -1.0 && r[0].0 <= 1.0);
        assert!(r[1].0 >= 2.0 && r[1].0 <= 4.0);
        assert_eq!(r[2].0, 7.0);
    }
}

#[test]
fn velocity_is_composed_of_momentum_and_pulls() {
    let velocity = compose_velocity(
        &reals(&[1.0, 2.0]),
        Weights {
            inertia: R64(0.5),
            cognitive: R64(2.0),
            social: R64(3.0),
        },
        &reals(&[10.0, 20.0]),
        &reals(&[100.0, -100.0]),
    );
    assert_eq!(velocity, reals(&[320.5, -259.0]));
}

#[test]
fn particle_moves_by_its_velocity() {
    let mut pso = swarm(1).with_rng_generator(script(&[0]));
    let mut particle = Particle::new(reals(&[0.5, 0.0]), R64(1.0), reals(&[0.25, -0.5]));
    particle.best_position = reals(&[0.25, 0.0]);
    let weights = Weights {
        inertia: R64(0.5),
        cognitive: R64(1.0),
        social: R64(2.0),
    };
    let moved = pso.move_particle(particle, &reals(&[1.0, 1.0]), weights);
    // half of the way to each optimum
    assert_eq!(moved.velocity, reals(&[0.125 - 0.125 + 0.5, -0.25 + 1.0]));
    assert_eq!(moved.position, reals(&[1.0, 0.75]));
    assert_eq!(moved.cost, R64(1.0));
    assert_eq!(moved.best_position, reals(&[0.25, 0.0]));
}

#[test]
fn velocities_are_limited_and_refreshed() {
    let pso = swarm(1).with_velocity_clamping(R64(0.25)).ok().unwrap();
    assert_eq!(
        pso.limit_velocity(&reals(&[3.0, -0.25])),
        reals(&[0.5, -0.25])
    );
    assert_eq!(
        swarm(1).limit_velocity(&reals(&[3.0, -0.25])),
        reals(&[3.0, -0.25])
    );
    let mut pso = swarm(1)
        .with_velocity_mutation(R64(0.5))
        .ok()
        .unwrap()
        .with_rng_generator(script(&[0]));
    // the velocity (0.3, 0.4) is as long as the threshold
    assert_eq!(
        pso.mutate_velocity(&reals(&[0.25, 0.375])),
        reals(&[0.0, 0.0])
    );
    assert_eq!(
        pso.mutate_velocity(&reals(&[0.3, 0.4])),
        reals(&[0.3, 0.4])
    );
    assert_eq!(
        pso.mutate_velocity(&reals(&[2.0, 1.0])),
        reals(&[2.0, 1.0])
    );
}

#[test]
fn mutation_moves_by_a_fraction_of_the_range() {
    let mutating = |strategy: MutationStrategy<R64>, word: u64| {
        swarm(1)
            .with_mutation(strategy, R64(0.5), MutationApplication::AllParticles)
            .ok()
            .unwrap()
            .with_rng_generator(script(&[word]))
            .apply_mutation(&reals(&[0.5, -0.5]))
    };
    let half = 1u64 << 63;
    assert_eq!(
        mutating(MutationStrategy::Gaussian(R64(0.125)), 0),
        reals(&[0.75, -0.25])
    );
    assert_eq!(
        mutating(MutationStrategy::Cauchy(R64(0.5)), 0),
        reals(&[-0.5, -1.0])
    );
    assert_eq!(
        mutating(MutationStrategy::Gaussian(R64(0.125)), half),
        reals(&[0.5, -0.5])
    );
    assert_eq!(
        mutating(MutationStrategy::Disabled, 0),
        reals(&[0.5, -0.5])
    );
}

#[test]
fn strata_are_sampled_once_each() {
    let mut pso = swarm(4)
        .with_initialization_strategy(InitializationStrategy::LatinHypercube)
        .with_rng_generator(script(&[1 << 63]));
    let (positions, velocities) = pso.initialize_positions_and_velocities();
    let firsts: Vec<f64> = positions.iter().map(|p| p[0].0).collect();
    assert_eq!(firsts, vec![-0.75, -0.25, 0.25, 0.75]);
    assert_eq!(velocities, vec![reals(&[0.0, 0.0]); 4]);
}

#[test]
fn opposition_keeps_the_cheaper_positions() {
    let chosen = select_cheapest(
        vec![reals(&[1.0]), reals(&[2.0])],
        reals(&[5.0, 3.0]),
        vec![reals(&[-1.0]), reals(&[-2.0])],
        reals(&[3.0, 4.0]),
        2,
    );
    assert_eq!(chosen, vec![reals(&[2.0]), reals(&[-1.0])]);
    let problem = CountingProblem {
        counter: std::sync::Arc::new(std::sync::Mutex::new(0)),
    };
    let mut pso = swarm(6).with_initialization_strategy(InitializationStrategy::OppositionBased);
    let particles = pso.initialize_particles(&problem).ok().unwrap();
    assert_eq!(particles.len(), 6);
    // each position, each opposite position, and each chosen position
    assert_eq!(*problem.counter.lock().unwrap(), 18);
}

#[test]
fn new_particles_are_in_order_of_their_costs() {
    let particles = assemble(
        vec![reals(&[1.0]), reals(&[2.0]), reals(&[3.0])],
        vec![reals(&[0.1]), reals(&[0.2]), reals(&[0.3])],
        reals(&[5.0, -1.0, 2.0]),
    );
    let costs: Vec<f64> = particles.iter().map(|p| p.cost.0).collect();
    assert_eq!(costs, vec![-1.0, 2.0, 5.0]);
    assert_eq!(particles[0].position, reals(&[2.0]));
    assert_eq!(particles[0].velocity, reals(&[0.2]));
    assert_eq!(particles[0].best_cost, R64(-1.0));
}

fn standing(costs: &[f64], best_cost: f64) -> Standing<Vec<R64>, R64> {
    Standing {
        particles: costs
            .iter()
            .map(|c| Particle::new(reals(&[*c]), R64(*c), reals(&[0.0])))
            .collect(),
        best: Particle::new(reals(&[best_cost]), R64(best_cost), reals(&[0.0])),
        best_cost: R64(best_cost),
    }
}

#[test]
fn costs_are_recorded_as_bests() {
    let mut s = standing(&[3.0, 4.0, 5.0], 3.0);
    s.particles[1].position = reals(&[9.0]);
    s.record(&reals(&[3.5, 1.0, 4.5]));
    assert_eq!(s.particles[0].cost, R64(3.5));
    assert_eq!(s.particles[0].best_cost, R64(3.0));
    assert_eq!(s.particles[1].best_cost, R64(1.0));
    assert_eq!(s.particles[1].best_position, reals(&[9.0]));
    assert_eq!(s.particles[2].best_cost, R64(4.5));
    assert_eq!(s.best_cost, R64(1.0));
    assert_eq!(s.best.position, reals(&[9.0]));
    assert_eq!(s.best.best_cost, R64(1.0));
}

#[test]
fn mutated_positions_are_taken_if_they_cost_less() {
    let mut s = standing(&[3.0, 4.0], 3.0);
    s.particles[1].best_cost = R64(2.0);
    s.offer_all(
        &vec![0, 1],
        &vec![reals(&[7.0]), reals(&[8.0])],
        &reals(&[3.0, 2.5]),
    );
    // no less than before
    assert_eq!(s.particles[0].position, reals(&[3.0]));
    // less than before, but no less than the best of the particle
    assert_eq!(s.particles[1].position, reals(&[8.0]));
    assert_eq!(s.particles[1].cost, R64(2.5));
    assert_eq!(s.particles[1].best_cost, R64(2.0));
    assert_eq!(s.best_cost, R64(2.5));
    assert_eq!(s.best.position, reals(&[8.0]));
    s.offer_best(&reals(&[6.0]), R64(2.5));
    assert_eq!(s.best.position, reals(&[8.0]));
    s.offer_best(&reals(&[6.0]), R64(2.0));
    assert_eq!(s.best.position, reals(&[6.0]));
    assert_eq!(s.best_cost, R64(2.0));
}

#[test]
fn particles_that_cost_more_than_the_average_are_below_average() {
    assert_eq!(standing(&[1.0, 5.0, 3.0, 7.0], 1.0).below_average(), vec![1, 3]);
    assert!(standing(&[2.0, 2.0], 2.0).below_average().is_empty());
}

#[test]
fn states_without_best_or_population_are_refused() {
    let mut pso = swarm(2);
    let state: SwarmState<Vec<R64>, R64> = SwarmState::new();
    assert_eq!(
        pso.next_iter(&Bowl, state).err().unwrap().message(),
        "Potential bug: \"`ParticleSwarm`: No current best individual in state.\""
    );
    let state = SwarmState {
        individual: Some(Particle::new(
            reals(&[0.0, 0.0]),
            R64(0.0),
            reals(&[0.0, 0.0]),
        )),
        ..SwarmState::new()
    };
    assert_eq!(
        pso.next_iter(&Bowl, state).err().unwrap().message(),
        "Potential bug: \"`ParticleSwarm`: No population in state.\""
    );
    let state: SwarmState<Vec<R64>, R64> = SwarmState::new();
    assert_eq!(
        pso.init(&Broken, state).err().unwrap().message(),
        "broken"
    );
}

#[test]
fn swarm_never_gets_worse() {
    for application in [
        MutationApplication::GlobalBestOnly,
        MutationApplication::AllParticles,
        MutationApplication::BelowAverage,
    ] {
        let mut pso = swarm(12)
            .with_mutation(MutationStrategy::Cauchy(R64(0.1)), R64(0.5), application)
            .ok()
            .unwrap()
            .with_velocity_mutation(R64(0.01))
            .ok()
            .unwrap()
            .with_velocity_clamping(R64(0.5))
            .ok()
            .unwrap();
        let mut state = pso.init(&Bowl, SwarmState::new()).ok().unwrap();
        let mut best = state.cost.0;
        for _ in 0..60 {
            let bests: Vec<f64> = state
                .population
                .as_ref()
                .unwrap()
                .iter()
                .map(|p| p.best_cost.0)
                .collect();
            state = pso.next_iter(&Bowl, state).ok().unwrap();
            assert!(state.cost.0 <= best);
            best = state.cost.0;
            let particles = state.population.as_ref().unwrap();
            assert_eq!(particles.len(), 12);
            for (particle, old) in particles.iter().zip(bests) {
                assert!(particle.best_cost.0 <= old);
                assert!(state.cost.0 <= particle.best_cost.0);
                assert!(particle.position.iter().all(|x| x.0.abs() <= 1.0));
            }
        }
    }
}

#[test]
fn default_weights_are_exact() {
    assert_eq!(R64::decimal(7213475204444817, 16).0, 1.0 / (2.0 * 2.0f64.ln()));
    assert_eq!(R64::decimal(11931471805599454, 16).0, 0.5 + 2.0f64.ln());
    assert_eq!(R64(1.0).widen(), R64(1.0));
}

/// A problem that evaluates all parameters at once.
struct Together {
    calls: Cell<usize>,
}

impl CostFunction<Vec<R64>, R64> for Together {
    fn cost(&self, _param: &Vec<R64>) -> Result<R64, Error> {
        Err(Error::msg("asked for one"))
    }

    fn bulk_cost(&self, params: &Vec<&Vec<R64>>) -> Result<Vec<R64>, Error> {
        self.calls.set(self.calls.get() + 1);
        params.iter().map(|p| Bowl.cost(p)).collect()
    }
}

#[test]
fn costs_can_be_evaluated_at_once() {
    let problem = Together { calls: Cell::new(0) };
    let mut pso = swarm(6).with_rng_generator(StdRng::seed_from_u64(3));
    let state = pso.init(&problem, SwarmState::new()).ok().unwrap();
    assert_eq!(problem.calls.get(), 1);
    let state = pso.next_iter(&problem, state).ok().unwrap();
    assert_eq!(problem.calls.get(), 2);
    assert_eq!(state.population.unwrap().len(), 6);
}

#[test]
fn swarms_follow_from_the_generator() {
    let run = |seed: u64, strategy: InitializationStrategy| {
        let mut pso = swarm(5)
            .with_initialization_strategy(strategy)
            .with_mutation(
                MutationStrategy::Gaussian(R64(0.25)),
                R64(0.5),
                MutationApplication::AllParticles,
            )
            .ok()
            .unwrap()
            .with_rng_generator(StdRng::seed_from_u64(seed));
        let state = pso.init(&Bowl, SwarmState::new()).ok().unwrap();
        let state = pso.next_iter(&Bowl, state).ok().unwrap();
        let positions: Vec<Vec<R64>> = state
            .population
            .unwrap()
            .into_iter()
            .map(|p| p.position)
            .collect();
        positions
    };
    for strategy in [
        InitializationStrategy::UniformRandom,
        InitializationStrategy::LatinHypercube,
        InitializationStrategy::OppositionBased,
    ] {
        assert_eq!(run(4, strategy), run(4, strategy));
        assert_ne!(run(4, strategy), run(5, strategy));
    }
}

#[test]
fn refreshed_velocities_are_limited_too() {
    let mut pso = swarm(8)
        .with_velocity_clamping(R64(0.25))
        .ok()
        .unwrap()
        .with_velocity_mutation(R64(10.0))
        .ok()
        .unwrap()
        .with_rng_generator(StdRng::seed_from_u64(11));
    let mut state = pso.init(&Bowl, SwarmState::new()).ok().unwrap();
    let mut moving = false;
    for _ in 0..10 {
        state = pso.next_iter(&Bowl, state).ok().unwrap();
        for p in state.population.as_ref().unwrap() {
            assert!(p.velocity.iter().all(|v| -0.5 <= v.0 && v.0 <= 0.5));
            moving = moving || p.velocity.iter().any(|v| v.0 != 0.0);
        }
    }
    assert!(moving);
}

#[test]
fn strata_are_sampled_where_they_are_drawn() {
    let pso = swarm(4);
    assert_eq!(pso.sample_stratum(1, R64(0.5)), reals(&[-0.25, -0.25]));
    assert_eq!(pso.sample_stratum(0, R64(0.0)), reals(&[-1.0, -1.0]));
}

#[test]
fn chaotic_inertia_stays_in_its_range() {
    let mut pso = swarm(1).with_chaotic_inertia(R64(0.4), R64(0.9)).ok().unwrap();
    for _ in 0..1000 {
        let weight = pso.get_inertia_weight();
        assert!(0.4 <= weight.0 && weight.0 <= 0.9);
    }
    let mut pso = swarm(1).with_inertia_factor(R64(0.5)).ok().unwrap();
    for _ in 0..10 {
        assert_eq!(pso.get_inertia_weight(), R64(0.5));
    }
}

#[test]
fn populations_of_the_wrong_size_are_refused_by_an_empty_swarm() {
    let particle = Particle::new(reals(&[0.0, 0.0]), R64(1.0), reals(&[0.0, 0.0]));
    let error = swarm(0)
        .init(&Bowl, population_state(vec![particle]))
        .err()
        .unwrap();
    assert_eq!(
        error.message(),
        "Invalid parameter: \"`ParticleSwarm`: Provided list of particles is of length 1, expected 0\""
    );
}

#[test]
fn impossible_and_certain_mutations() {
    let mutated = |probability: f64, word: u64| {
        swarm(1)
            .with_mutation(
                MutationStrategy::Gaussian(R64(0.125)),
                R64(probability),
                MutationApplication::AllParticles,
            )
            .ok()
            .unwrap()
            .with_rng_generator(script(&[word]))
            .apply_mutation(&reals(&[0.5, -0.5]))
    };
    assert_eq!(mutated(0.0, 0), reals(&[0.5, -0.5]));
    assert_eq!(mutated(1.0, u64::MAX), reals(&[0.75, -0.25]));
    assert_eq!(unit_draw::<R64, Script>(&mut script(&[0])).0, 0.0);
    let most = unit_draw::<R64, Script>(&mut script(&[u64::MAX])).0;
    assert!(0.9 < most && most < 1.0);
}

/// A problem that refuses one coordinate.
struct Refusing(f64);

impl CostFunction<Vec<R64>, R64> for Refusing {
    fn cost(&self, param: &Vec<R64>) -> Result<R64, Error> {
        if param[0].0 == self.0 {
            Err(Error::msg("refused"))
        } else {
            Bowl.cost(param)
        }
    }
}

#[test]
fn strata_and_mutations_take_words() {
    let mut pso = swarm(4)
        .with_initialization_strategy(InitializationStrategy::LatinHypercube)
        .with_mutation(
            MutationStrategy::Gaussian(R64(0.125)),
            R64(0.5),
            MutationApplication::AllParticles,
        )
        .ok()
        .unwrap()
        .with_rng_generator(script(&[0]));
    let state = pso.init(&Bowl, SwarmState::new()).ok().unwrap();
    assert_eq!(pso.rng_generator.next, 4);
    let state = pso.next_iter(&Bowl, state).ok().unwrap();
    assert_eq!(pso.rng_generator.next, 8);
    // a population that is provided takes none
    let given = population_state(state.population.unwrap());
    assert!(pso.init(&Bowl, given).is_ok());
    assert_eq!(pso.rng_generator.next, 8);
    assert!(pso.next_iter(&Bowl, SwarmState::new()).is_err());
    assert_eq!(pso.rng_generator.next, 8);
}

#[test]
fn errors_come_from_positions_that_are_asked_for() {
    // the strata start at -1, -0.5, 0 and 0.5
    let strata = |refused: f64| {
        swarm(4)
            .with_initialization_strategy(InitializationStrategy::LatinHypercube)
            .with_rng_generator(script(&[0]))
            .init(&Refusing(refused), SwarmState::new())
            .err()
            .map(|e| e.message())
    };
    assert_eq!(strata(-0.5), Some("refused".to_string()));
    assert_eq!(strata(0.25), None);
}

#[test]
fn best_costs_are_the_least_costs() {
    let mut pso = swarm(6)
        .with_mutation(
            MutationStrategy::Gaussian(R64(0.25)),
            R64(0.5),
            MutationApplication::AllParticles,
        )
        .ok()
        .unwrap()
        .with_rng_generator(StdRng::seed_from_u64(21));
    let mut state = pso.init(&Bowl, SwarmState::new()).ok().unwrap();
    for _ in 0..10 {
        let bests: Vec<f64> = state
            .population
            .as_ref()
            .unwrap()
            .iter()
            .map(|p| p.best_cost.0)
            .collect();
        let old = state.cost.0;
        state = pso.next_iter(&Bowl, state).ok().unwrap();
        for (p, best) in state.population.as_ref().unwrap().iter().zip(&bests) {
            assert_eq!(p.best_cost.0, p.cost.0.min(*best));
            assert!(state.cost.0 <= p.cost.0);
        }
        assert!(state.cost.0 <= old);
        assert_eq!(state.individual.as_ref().unwrap().cost, state.cost);
    }
}

#[test]
fn velocities_need_no_range_if_none_can_stagnate() {
    let mut pso = swarm(3)
        .with_velocity_mutation(R64(0.0))
        .ok()
        .unwrap()
        .with_rng_generator(StdRng::seed_from_u64(2));
    assert_eq!(pso.mutate_velocity(&reals(&[0.0, 0.0])), reals(&[0.0, 0.0]));
}
