//! The solver itself.

use crate::counting;
use crate::error::{Error, ErrorView};
use crate::float;
use crate::float::{ArgminFloat, Real};
use crate::nsgaii::crowding;
use crate::nsgaii::dominance;
use crate::nsgaii::individual;
use crate::nsgaii::individual::Individual;
use crate::nsgaii::selection;
use crate::nsgaii::sorting;
use crate::nsgaii::variation;
use crate::random;
use crate::random::RandomSource;
use crate::text;
use rand::rngs::StdRng;
use vstd::prelude::*;
use vstd::string::*;

verus! {

/// NSGA-II solver
///
/// Implements the NSGA-II algorithm for multi-objective optimization.
#[derive(Clone, Debug)]
pub struct NsgaII<F, R = StdRng> {
    /// Variable bounds (min, max) for each dimension
    pub bounds: Vec<(F, F)>,
    /// Population size
    pub population_size: usize,
    /// Crossover probability
    pub crossover_probability: F,
    /// Mutation probability
    pub mutation_probability: F,
    /// Distribution index for crossover
    pub crossover_eta: F,
    /// Distribution index for mutation
    pub mutation_eta: F,
    /// Random number generator
    pub rng: R,
}

/// What is wrong with the bounds of dimension `i`.
pub open spec fn invalid_bounds_text<F: Real>(i: nat, bound: (F, F)) -> Seq<char> {
    "NSGA-II: invalid bounds at dimension "@ + text::decimal_text(i) + ": min ("@
        + bound.0.spec_text() + ") must be < max ("@ + bound.1.spec_text() + ")"@
}

/// Which dimensions have a lower bound that is not less than the upper bound.
pub open spec fn not_increasing<F: Real>(bounds: Seq<(F, F)>) -> spec_fn(int) -> bool {
    |i: int| float::at_most(bounds[i].1, bounds[i].0)
}

/// What is wrong with the arguments for a new solver, if anything is.
pub open spec fn rejection<F: Real>(bounds: Seq<(F, F)>, population_size: nat) -> Option<Seq<char>> {
    if bounds.len() == 0 {
        Some("NSGA-II: bounds cannot be empty"@)
    } else if population_size < 4 {
        Some("NSGA-II: population size must be at least 4"@)
    } else if population_size % 2 != 0 {
        Some("NSGA-II: population size must be even"@)
    } else {
        match counting::first(bounds.len(), not_increasing(bounds), 0) {
            Some(i) => Some(invalid_bounds_text(i, bounds[i as int])),
            None => None,
        }
    }
}

/// What is wrong with the bounds of dimension `i`.
fn invalid_bounds<F: Real>(i: usize, bound: (F, F)) -> (r: Error)
    ensures
        r@ == ErrorView::Message(invalid_bounds_text(i as nat, bound)),
{
    let mut text = "NSGA-II: invalid bounds at dimension ".to_string();
    text.append(text::decimal(i as u64).as_str());
    text.append(": min (");
    text.append(bound.0.text().as_str());
    text.append(") must be < max (");
    text.append(bound.1.text().as_str());
    text.append(")");
    Error::Message { text }
}

impl<F: ArgminFloat> NsgaII<F, StdRng> {
    /// Create a new NSGA-II solver
    ///
    /// # Arguments
    ///
    /// * `bounds` - Variable bounds (min, max) for each dimension
    /// * `population_size` - Size of the population (should be even)
    ///
    /// # Errors
    ///
    /// Returns an error if bounds are invalid or population size is < 4
    pub fn new(bounds: Vec<(F, F)>, population_size: usize) -> (r: Result<Self, Error>)
        ensures
            match rejection(bounds@, population_size as nat) {
                Some(text) => r matches Err(e) && e@ == ErrorView::Message(text),
                None => r matches Ok(solver) && {
                    &&& solver.bounds == bounds
                    &&& solver.population_size == population_size
                    &&& solver.crossover_probability == F::spec_decimal(9, 1)
                    &&& solver.mutation_probability == F::spec_decimal(1, 0).spec_over(
                        F::spec_from_u64(bounds@.len() as u64),
                    )
                    &&& solver.crossover_eta == F::spec_decimal(20, 0)
                    &&& solver.mutation_eta == F::spec_decimal(20, 0)
                },
            },
    {
        if bounds.is_empty() {
            return Err(Error::msg("NSGA-II: bounds cannot be empty"));
        }
        if population_size < 4 {
            return Err(Error::msg("NSGA-II: population size must be at least 4"));
        }
        if population_size % 2 != 0 {
            return Err(Error::msg("NSGA-II: population size must be even"));
        }
        let mut i: usize = 0;
        while i < bounds.len()
            invariant
                i <= bounds@.len(),
                counting::first(bounds@.len(), not_increasing(bounds@), 0) == counting::first(
                    bounds@.len(),
                    not_increasing(bounds@),
                    i as int,
                ),
                bounds@.len() > 0,
                population_size >= 4,
                population_size % 2 == 0,
            decreases bounds@.len() - i,
        {
            let bound = bounds[i];
            if float::is_at_most(bound.1, bound.0) {
                return Err(invalid_bounds(i, bound));
            }
            i = i + 1;
        }
        let n_vars: usize = bounds.len();
        let mutation_probability = F::decimal(1, 0).over(F::from_u64(n_vars as u64));
        Ok(
            NsgaII {
                bounds,
                population_size,
                crossover_probability: F::decimal(9, 1),
                mutation_probability,
                crossover_eta: F::decimal(20, 0),
                mutation_eta: F::decimal(20, 0),
                rng: random::std_rng(),
            },
        )
    }
}

impl<F: ArgminFloat, R> NsgaII<F, R> {
    /// Set a custom random number generator
    pub fn with_rng<R2>(self, rng: R2) -> (r: NsgaII<F, R2>)
        ensures
            r == (NsgaII {
                bounds: self.bounds,
                population_size: self.population_size,
                crossover_probability: self.crossover_probability,
                mutation_probability: self.mutation_probability,
                crossover_eta: self.crossover_eta,
                mutation_eta: self.mutation_eta,
                rng,
            }),
    {
        NsgaII {
            bounds: self.bounds,
            population_size: self.population_size,
            crossover_probability: self.crossover_probability,
            mutation_probability: self.mutation_probability,
            crossover_eta: self.crossover_eta,
            mutation_eta: self.mutation_eta,
            rng,
        }
    }

    /// Set crossover probability (default: 0.9)
    pub fn with_crossover_probability(self, prob: F) -> (r: Self)
        ensures
            r == (NsgaII { crossover_probability: prob, ..self }),
    {
        let mut solver = self;
        solver.crossover_probability = prob;
        solver
    }

    /// Set mutation probability per variable (default: 1/n)
    pub fn with_mutation_probability(self, prob: F) -> (r: Self)
        ensures
            r == (NsgaII { mutation_probability: prob, ..self }),
    {
        let mut solver = self;
        solver.mutation_probability = prob;
        solver
    }

    /// Set distribution index for SBX crossover (default: 20.0)
    ///
    /// Higher values produce offspring closer to parents.
    pub fn with_crossover_eta(self, eta: F) -> (r: Self)
        ensures
            r == (NsgaII { crossover_eta: eta, ..self }),
    {
        let mut solver = self;
        solver.crossover_eta = eta;
        solver
    }

    /// Set distribution index for polynomial mutation (default: 20.0)
    ///
    /// Higher values produce smaller mutations.
    pub fn with_mutation_eta(self, eta: F) -> (r: Self)
        ensures
            r == (NsgaII { mutation_eta: eta, ..self }),
    {
        let mut solver = self;
        solver.mutation_eta = eta;
        solver
    }

    /// Name of the solver
    pub fn name(&self) -> (r: &'static str)
        ensures
            r@ == "NSGA-II"@,
    {
        "NSGA-II"
    }

    /// Whether the two solvers differ at most in the state of their random number generator.
    pub open spec fn same_settings(self, other: Self) -> bool {
        self == NsgaII { rng: self.rng, ..other }
    }

    /// Check if individual a dominates individual b
    pub fn dominates(a: &[F], b: &[F]) -> (r: bool)
        ensures
            r == dominance::dominating(a@, b@),
    {
        sorting::dominates(a, b)
    }

    /// Fast non-dominated sorting
    ///
    /// Gives every individual that is on a front the number of that front as its rank, and leaves
    /// everything else unchanged.
    pub fn fast_non_dominated_sort(&self, population: &mut Vec<Individual<Vec<F>, F>>)
        ensures
            final(population)@ == sorting::ranked(old(population)@),
            forall|j: int|
                0 <= j < old(population)@.len() ==> sorting::is_ranked(
                    old(population)@[j],
                    #[trigger] final(population)@[j],
                    dominance::front_of(individual::objectives_of(old(population)@), j),
                ),
    {
        sorting::sort_into_fronts(population);
    }

    /// Calculate crowding distance for a front
    pub fn calculate_crowding_distance(
        &self,
        population: &mut Vec<Individual<Vec<F>, F>>,
        front: &Vec<usize>,
    )
        requires
            crowding::is_front_of(old(population)@, front@),
        ensures
            final(population)@ == crowding::crowded(old(population)@, front@),
    {
        crowding::crowd(population, front);
    }

    /// Crowded comparison operator
    pub fn crowded_compare(pop: &Vec<Individual<Vec<F>, F>>, i: usize, j: usize) -> (r: bool)
        requires
            i < pop@.len(),
            j < pop@.len(),
        ensures
            r == selection::is_preferred(pop@, i as int, j as int),
    {
        if pop[i].rank < pop[j].rank {
            true
        } else if pop[i].rank > pop[j].rank {
            false
        } else {
            pop[j].crowding_distance.less(pop[i].crowding_distance)
        }
    }
}

impl<F: ArgminFloat, R: RandomSource> NsgaII<F, R> {
    /// Generate random position within bounds
    pub fn random_position(&mut self) -> (r: Vec<F>)
        ensures
            final(self).same_settings(*old(self)),
            r@ == variation::placing(old(self).bounds@, random::stream(old(self).rng)),
            variation::is_random_position(old(self).bounds@, r@),
            random::stream(final(self).rng) == random::ahead(
                random::stream(old(self).rng),
                old(self).bounds@.len(),
            ),
    {
        let ghost words = random::stream(self.rng);
        let mut position: Vec<F> = Vec::new();
        let mut i: usize = 0;
        while i < self.bounds.len()
            invariant
                self.same_settings(*old(self)),
                words == random::stream(old(self).rng),
                i <= self.bounds@.len(),
                random::stream(self.rng) == random::ahead(words, i as nat),
                position@ =~= variation::placing(self.bounds@, words).take(i as int),
            decreases self.bounds@.len() - i,
        {
            let u: F::Wide = random::unit_draw(&mut self.rng);
            position.push(variation::place(self.bounds[i], u));
            i = i + 1;
        }
        proof {
            variation::law_placing_is_random(old(self).bounds@, words);
        }
        position
    }

    /// Simulated Binary Crossover (SBX)
    pub fn crossover(&mut self, parent1: &[F], parent2: &[F]) -> (r: (Vec<F>, Vec<F>))
        requires
            parent1@.len() <= parent2@.len(),
            parent1@.len() <= old(self).bounds@.len(),
        ensures
            final(self).same_settings(*old(self)),
            (r.0@, r.1@) == variation::crossing(
                old(self).bounds@,
                old(self).crossover_probability,
                old(self).crossover_eta,
                (parent1@, parent2@),
                random::stream(old(self).rng),
            ),
            variation::is_crossing(
                old(self).bounds@,
                old(self).crossover_probability,
                old(self).crossover_eta,
                (parent1@, parent2@),
                (r.0@, r.1@),
            ),
            random::stream(final(self).rng) == random::ahead(
                random::stream(old(self).rng),
                variation::crossing_length(
                    old(self).crossover_probability,
                    (parent1@, parent2@),
                    random::stream(old(self).rng),
                ),
            ),
    {
        let ghost words = random::stream(self.rng);
        let ghost parents = (parent1@, parent2@);
        proof {
            variation::law_crossing_is_crossing(
                self.bounds@,
                self.crossover_probability,
                self.crossover_eta,
                parents,
                words,
            );
        }
        let n: usize = parent1.len();
        let mut child1 = individual::copy_values(parent1);
        let mut child2 = individual::copy_values(parent2);
        let t: F::Wide = random::unit_draw(&mut self.rng);
        if self.crossover_probability.widen().less(t) {
            return (child1, child2);
        }
        let eta = self.crossover_eta.widen();
        let half = F::Wide::decimal(5, 1);
        let mut i: usize = 0;
        while i < n
            invariant
                i <= n,
                n == parent1@.len(),
                n <= parent2@.len(),
                n <= self.bounds@.len(),
                self.same_settings(*old(self)),
                words == random::stream(old(self).rng),
                parents == (parent1@, parent2@),
                half == variation::half::<F::Wide>(),
                eta == old(self).crossover_eta.spec_widen(),
                random::stream(self.rng) == random::ahead(words, variation::crossing_draws(parents, words, i as nat)),
                child1@.len() == parent1@.len(),
                child2@.len() == parent2@.len(),
                forall|k: int|
                    0 <= k < i ==> (#[trigger] child1@[k], child2@[k]) == variation::crossing_at(
                        self.bounds@,
                        old(self).crossover_eta,
                        parents,
                        words,
                        k,
                    ),
                forall|k: int| i <= k < n ==> #[trigger] child1@[k] == parent1@[k],
                forall|k: int| i <= k < parent2@.len() ==> #[trigger] child2@[k] == parent2@[k],
            decreases n - i,
        {
            let values = (parent1[i], parent2[i]);
            let v: F::Wide = random::unit_draw(&mut self.rng);
            if !half.less(v) && !variation::close(values) {
                let u: F::Wide = random::unit_draw(&mut self.rng);
                let (c1, c2) = variation::cross_at(values, self.bounds[i], eta, v, u);
                child1[i] = c1;
                child2[i] = c2;
            }
            i = i + 1;
        }
        assert((child1@, child2@) == variation::crossing(
            old(self).bounds@,
            old(self).crossover_probability,
            old(self).crossover_eta,
            parents,
            words,
        )) by {
            let expected = variation::crossing(
                old(self).bounds@,
                old(self).crossover_probability,
                old(self).crossover_eta,
                parents,
                words,
            );
            assert(child1@ =~= expected.0);
            assert forall|k: int| 0 <= k < parent2@.len() implies child2@[k] == expected.1[k] by {
                if k < n {
                    assert(child1@[k] == expected.0[k]);
                }
            }
            assert(child2@ =~= expected.1);
        }
        (child1, child2)
    }

    /// Polynomial mutation
    pub fn mutate(&mut self, individual: &[F]) -> (r: Vec<F>)
        requires
            individual@.len() <= old(self).bounds@.len(),
        ensures
            final(self).same_settings(*old(self)),
            r@ == variation::mutation(
                old(self).bounds@,
                old(self).mutation_probability,
                old(self).mutation_eta,
                individual@,
                random::stream(old(self).rng),
            ),
            variation::is_mutation(
                old(self).bounds@,
                old(self).mutation_probability,
                old(self).mutation_eta,
                individual@,
                r@,
            ),
            random::stream(final(self).rng) == random::ahead(
                random::stream(old(self).rng),
                variation::mutation_draws(
                    old(self).mutation_probability,
                    random::stream(old(self).rng),
                    individual@.len(),
                ),
            ),
    {
        let ghost words = random::stream(self.rng);
        let ghost expected = variation::mutation(
            self.bounds@,
            self.mutation_probability,
            self.mutation_eta,
            individual@,
            words,
        );
        proof {
            variation::law_mutation_is_mutation(
                self.bounds@,
                self.mutation_probability,
                self.mutation_eta,
                individual@,
                words,
            );
        }
        let n: usize = individual.len();
        let mut mutated = individual::copy_values(individual);
        let eta = self.mutation_eta.widen();
        let mut i: usize = 0;
        while i < n
            invariant
                i <= n,
                n == individual@.len(),
                n <= self.bounds@.len(),
                self.same_settings(*old(self)),
                words == random::stream(old(self).rng),
                eta == old(self).mutation_eta.spec_widen(),
                expected == variation::mutation(
                    old(self).bounds@,
                    old(self).mutation_probability,
                    old(self).mutation_eta,
                    individual@,
                    words,
                ),
                random::stream(self.rng) == random::ahead(words, variation::mutation_draws(old(self).mutation_probability, words, i as nat)),
                mutated@.len() == n,
                forall|k: int| 0 <= k < i ==> #[trigger] mutated@[k] == expected[k],
                forall|k: int| i <= k < n ==> #[trigger] mutated@[k] == individual@[k],
            decreases n - i,
        {
            let t: F::Wide = random::unit_draw(&mut self.rng);
            if !self.mutation_probability.widen().less(t) {
                let u: F::Wide = random::unit_draw(&mut self.rng);
                mutated[i] = variation::mutate_at(
                    individual[i],
                    self.bounds[i],
                    self.mutation_probability,
                    eta,
                    t,
                    u,
                );
            }
            i = i + 1;
        }
        assert(mutated@ =~= expected);
        mutated
    }

    /// Binary tournament selection
    pub fn tournament_selection(&mut self, population: &Vec<Individual<Vec<F>, F>>) -> (r: usize)
        requires
            population@.len() > 0,
        ensures
            final(self).same_settings(*old(self)),
            r < population@.len(),
            (r, random::stream(final(self).rng)) == selection::tournament::<R, Vec<F>, F>(
                population@,
                random::stream(old(self).rng),
            ),
            selection::is_tournament_winner(population@, r as int),
    {
        let n: usize = population.len();
        let i: usize = self.rng.index_below(n);
        let ghost between = random::stream(self.rng);
        let mut j: usize = self.rng.index_below(n);
        let mut patience: u64 = u64::MAX;
        while i == j && n > 1 && patience > 0
            invariant
                n == population@.len(),
                i < n,
                j < n,
                self.same_settings(*old(self)),
                (i, between) == R::index_from(random::stream(old(self).rng), n),
                selection::opponent::<R>(between, n, i, u64::MAX as nat) == if i != j || n <= 1 {
                    (j, random::stream(self.rng))
                } else if patience > 0 {
                    selection::opponent::<R>(
                        random::stream(self.rng),
                        n,
                        i,
                        (patience - 1) as nat,
                    )
                } else if i + 1 < n {
                    ((i + 1) as usize, random::stream(self.rng))
                } else {
                    (0, random::stream(self.rng))
                },
            decreases patience,
        {
            j = self.rng.index_below(n);
            patience = patience - 1;
        }
        if i == j && n > 1 {
            // A source that repeats itself this often has nothing else to offer.
            j = if i + 1 < n {
                i + 1
            } else {
                0
            };
        }
        assert(selection::is_pairing(population@, i as int, j as int));
        if Self::crowded_compare(population, i, j) {
            i
        } else {
            j
        }
    }
}

} // verus!
