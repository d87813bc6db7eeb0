//! The first generation, and the step from one generation to the next.

use crate::counting;
use crate::error;
use crate::error::{Error, ErrorView};
use crate::float;
use crate::float::{ArgminFloat, Real};
use crate::nsgaii::crowding;
use crate::nsgaii::dominance;
use crate::nsgaii::individual;
use crate::nsgaii::individual::Individual;
use crate::nsgaii::selection;
use crate::nsgaii::solver::NsgaII;
use crate::nsgaii::sorting;
use crate::nsgaii::variation;
use crate::problem::MultiObjectiveCostFunction;
use crate::random;
use crate::random::RandomSource;
use crate::text;
use vstd::prelude::*;
use vstd::string::*;

verus! {

/// Which objectives are not finite.
pub open spec fn not_finite<F: Real>(objectives: Seq<F>) -> spec_fn(int) -> bool {
    |k: int| !float::finite(objectives[k])
}

/// The first objective that is not finite.
pub open spec fn first_not_finite<F: Real>(objectives: Seq<F>) -> Option<nat> {
    counting::first(objectives.len(), not_finite(objectives), 0)
}

/// Which dimensions of a position are outside their bounds.
pub open spec fn outside<F: Real>(position: Seq<F>, bounds: Seq<(F, F)>) -> spec_fn(int) -> bool {
    |d: int|
        position[d].spec_less(bounds[d].0) || bounds[d].1.spec_less(position[d])
}

/// A text with one number in it.
pub open spec fn text_with(before: Seq<char>, n: nat, after: Seq<char>) -> Seq<char> {
    before + text::decimal_text(n) + after
}

/// What is wrong with individual `idx` of a population, if anything is.
pub open spec fn individual_fault<F: Real>(
    idx: nat,
    position: Seq<F>,
    objectives: Seq<F>,
    num_objectives: nat,
    bounds: Seq<(F, F)>,
) -> Option<Seq<char>> {
    let name = "NSGA-II: Individual "@ + text::decimal_text(idx);
    if objectives.len() != num_objectives {
        Some(
            name + " has "@ + text::decimal_text(objectives.len()) + " objectives, expected "@
                + text::decimal_text(num_objectives),
        )
    } else {
        match first_not_finite(objectives) {
            Some(k) => Some(
                name + " has non-finite objective "@ + text::decimal_text(k)
                    + " (NaN or infinite)"@,
            ),
            None => if position.len() != bounds.len() {
                Some(
                    name + " has "@ + text::decimal_text(position.len())
                        + " dimensions, expected "@ + text::decimal_text(bounds.len()),
                )
            } else {
                match counting::first(position.len(), outside(position, bounds), 0) {
                    Some(d) => Some(
                        name + " dimension "@ + text::decimal_text(d) + " value "@
                            + position[d as int].spec_text() + " is outside bounds ["@
                            + bounds[d as int].0.spec_text() + ", "@
                            + bounds[d as int].1.spec_text() + "]"@,
                    ),
                    None => None,
                }
            },
        }
    }
}

/// What is wrong with the first faulty individual from `idx` on, if there is one.
pub open spec fn population_fault<F: Real>(
    population: Seq<Individual<Vec<F>, F>>,
    num_objectives: nat,
    bounds: Seq<(F, F)>,
    idx: int,
) -> Option<Seq<char>>
    decreases population.len() - idx,
{
    if idx >= population.len() {
        None
    } else {
        match individual_fault(
            idx as nat,
            population[idx].position@,
            population[idx].objectives@,
            num_objectives,
            bounds,
        ) {
            Some(fault) => Some(fault),
            None => population_fault(population, num_objectives, bounds, idx + 1),
        }
    }
}

/// What is wrong with a population that the solver is to start from, if anything is.
pub open spec fn provided_fault<F: Real>(
    population: Seq<Individual<Vec<F>, F>>,
    size: nat,
    num_objectives: Option<nat>,
    bounds: Seq<(F, F)>,
) -> Option<Seq<char>> {
    if population.len() != size {
        Some(
            "NSGA-II: Provided population size ("@ + text::decimal_text(population.len())
                + ") does not match expected size ("@ + text::decimal_text(size) + ")"@,
        )
    } else {
        match num_objectives {
            None => Some("NSGA-II: Problem not set"@),
            Some(n) => population_fault(population, n, bounds, 0),
        }
    }
}

/// The error that a problem's answer for a new individual leads to, if it leads to one.
pub open spec fn answer_fault<F: Real>(
    answer: Result<Seq<F>, ErrorView>,
    num_objectives: nat,
) -> Option<ErrorView> {
    match answer {
        Err(e) => Some(e),
        Ok(objectives) => if objectives.len() != num_objectives {
            Some(
                ErrorView::Message(
                    "NSGA-II: Expected "@ + text::decimal_text(num_objectives)
                        + " objectives, got "@ + text::decimal_text(objectives.len()),
                ),
            )
        } else {
            match first_not_finite(objectives) {
                Some(k) => Some(
                    ErrorView::Message(
                        text_with("NSGA-II: Objective "@, k, " is not finite (NaN or infinite)"@),
                    ),
                ),
                None => None,
            }
        },
    }
}

/// The error that a problem's answer for a child leads to, if it leads to one.
pub open spec fn offspring_fault<F: Real>(answer: Result<Seq<F>, ErrorView>) -> Option<ErrorView> {
    match answer {
        Err(e) => Some(e),
        Ok(objectives) => match first_not_finite(objectives) {
            Some(k) => Some(
                ErrorView::Message(
                    text_with(
                        "NSGA-II: Objective "@,
                        k,
                        " is not finite (NaN or infinite) in offspring"@,
                    ),
                ),
            ),
            None => None,
        },
    }
}

/// The first objective that is not finite.
fn find_not_finite<F: Real>(objectives: &Vec<F>) -> (r: Option<usize>)
    ensures
        match r {
            Some(k) => first_not_finite(objectives@) == Some(k as nat),
            None => first_not_finite(objectives@) == None::<nat>,
        },
{
    let mut k: usize = 0;
    while k < objectives.len()
        invariant
            k <= objectives@.len(),
            first_not_finite(objectives@) == counting::first(
                objectives@.len(),
                not_finite(objectives@),
                k as int,
            ),
        decreases objectives@.len() - k,
    {
        if !float::is_finite(objectives[k]) {
            return Some(k);
        }
        k = k + 1;
    }
    None
}

/// The first dimension of a position that is outside its bounds.
fn find_outside<F: Real>(position: &Vec<F>, bounds: &Vec<(F, F)>) -> (r: Option<usize>)
    requires
        position@.len() == bounds@.len(),
    ensures
        match r {
            Some(d) => d < position@.len() && counting::first(
                position@.len(),
                outside(position@, bounds@),
                0,
            ) == Some(d as nat),
            None => counting::first(position@.len(), outside(position@, bounds@), 0) == None::<nat>,
        },
{
    let mut d: usize = 0;
    while d < position.len()
        invariant
            d <= position@.len(),
            position@.len() == bounds@.len(),
            counting::first(position@.len(), outside(position@, bounds@), 0) == counting::first(
                position@.len(),
                outside(position@, bounds@),
                d as int,
            ),
        decreases position@.len() - d,
    {
        let value = position[d];
        let bound = bounds[d];
        if value.less(bound.0) || bound.1.less(value) {
            return Some(d);
        }
        d = d + 1;
    }
    None
}

/// What is wrong with individual `idx` of a population, if anything is.
pub fn check_individual<F: Real>(
    idx: usize,
    candidate: &Individual<Vec<F>, F>,
    num_objectives: usize,
    bounds: &Vec<(F, F)>,
) -> (r: Option<Error>)
    ensures
        match individual_fault(
            idx as nat,
            candidate.position@,
            candidate.objectives@,
            num_objectives as nat,
            bounds@,
        ) {
            Some(fault) => r matches Some(e) && e@ == ErrorView::Message(fault),
            None => r is None,
        },
{
    let mut text = "NSGA-II: Individual ".to_string();
    text.append(text::decimal(idx as u64).as_str());
    if candidate.objectives.len() != num_objectives {
        text.append(" has ");
        text.append(text::decimal(candidate.objectives.len() as u64).as_str());
        text.append(" objectives, expected ");
        text.append(text::decimal(num_objectives as u64).as_str());
        return Some(Error::Message { text });
    }
    if let Some(k) = find_not_finite(&candidate.objectives) {
        text.append(" has non-finite objective ");
        text.append(text::decimal(k as u64).as_str());
        text.append(" (NaN or infinite)");
        return Some(Error::Message { text });
    }
    if candidate.position.len() != bounds.len() {
        text.append(" has ");
        text.append(text::decimal(candidate.position.len() as u64).as_str());
        text.append(" dimensions, expected ");
        text.append(text::decimal(bounds.len() as u64).as_str());
        return Some(Error::Message { text });
    }
    if let Some(d) = find_outside(&candidate.position, bounds) {
        text.append(" dimension ");
        text.append(text::decimal(d as u64).as_str());
        text.append(" value ");
        text.append(candidate.position[d].text().as_str());
        text.append(" is outside bounds [");
        text.append(bounds[d].0.text().as_str());
        text.append(", ");
        text.append(bounds[d].1.text().as_str());
        text.append("]");
        return Some(Error::Message { text });
    }
    None
}

/// Whether `r` is the new individual at `position` with the objectives that were answered.
pub open spec fn is_newcomer<F: Real>(
    position: Seq<F>,
    answer: Result<Seq<F>, ErrorView>,
    r: Individual<Vec<F>, F>,
) -> bool {
    &&& r.position@ == position
    &&& answer == Ok::<Seq<F>, ErrorView>(r.objectives@)
    &&& r.rank == 0
    &&& r.crowding_distance == float::zero::<F>()
}

/// Makes a new individual of a position and the problem's answer for it.
pub fn admit_newcomer<F: Real>(
    position: Vec<F>,
    answer: Result<Vec<F>, Error>,
    num_objectives: usize,
) -> (r: Result<Individual<Vec<F>, F>, Error>)
    ensures
        match answer_fault(error::outcome_view(answer), num_objectives as nat) {
            Some(fault) => r matches Err(e) && e@ == fault,
            None => r matches Ok(newcomer) && is_newcomer(
                position@,
                error::outcome_view(answer),
                newcomer,
            ),
        },
{
    match answer {
        Err(e) => Err(e),
        Ok(objectives) => {
            if objectives.len() != num_objectives {
                let mut text = "NSGA-II: Expected ".to_string();
                text.append(text::decimal(num_objectives as u64).as_str());
                text.append(" objectives, got ");
                text.append(text::decimal(objectives.len() as u64).as_str());
                return Err(Error::Message { text });
            }
            if let Some(k) = find_not_finite(&objectives) {
                let mut text = "NSGA-II: Objective ".to_string();
                text.append(text::decimal(k as u64).as_str());
                text.append(" is not finite (NaN or infinite)");
                return Err(Error::Message { text });
            }
            Ok(Individual::new(position, objectives))
        },
    }
}

/// Checks that all objectives of a child are finite.
pub fn check_offspring<F: Real>(objectives: &Vec<F>) -> (r: Result<(), Error>)
    ensures
        match offspring_fault(Ok::<Seq<F>, ErrorView>(objectives@)) {
            Some(fault) => r matches Err(e) && e@ == fault,
            None => r is Ok,
        },
{
    if let Some(k) = find_not_finite(objectives) {
        let mut text = "NSGA-II: Objective ".to_string();
        text.append(text::decimal(k as u64).as_str());
        text.append(" is not finite (NaN or infinite) in offspring");
        return Err(Error::Message { text });
    }
    Ok(())
}

impl<F: ArgminFloat, R: RandomSource> NsgaII<F, R> {
    /// Select next generation using elitism
    pub fn select_next_generation(&mut self, combined: &mut Vec<Individual<Vec<F>, F>>) -> (r: Vec<
        Individual<Vec<F>, F>,
    >)
        requires
            selection::is_selectable(old(combined)@, old(self).population_size as nat),
        ensures
            *final(self) == *old(self),
            selection::is_next_generation(
                old(combined)@,
                old(self).population_size as nat,
                final(combined)@,
                r@,
            ),
    {
        selection::select(combined, self.population_size)
    }

    /// The first generation: the population that is provided, if it is sound, or a random one.
    #[verifier::loop_isolation(false)]
    pub fn init<O: MultiObjectiveCostFunction<F>>(
        &mut self,
        problem: Option<&O>,
        population: Option<Vec<Individual<Vec<F>, F>>>,
    ) -> (r: Result<Vec<Individual<Vec<F>, F>>, Error>)
        ensures
            final(self).same_settings(*old(self)),
            population is Some || problem is None ==> *final(self) == *old(self),
            match (population, problem) {
                (Some(provided), _) => match provided_fault(
                    provided@,
                    old(self).population_size as nat,
                    match problem {
                        Some(p) => Some(p.objective_count()),
                        None => None,
                    },
                    old(self).bounds@,
                ) {
                    Some(fault) => r matches Err(e) && e@ == ErrorView::Message(fault),
                    None => r == Ok::<Vec<Individual<Vec<F>, F>>, Error>(provided),
                },
                (None, None) => r matches Err(e) && e@ == ErrorView::Message(
                    "NSGA-II: Problem not set"@,
                ),
                (None, Some(p)) => match r {
                    Ok(created) => {
                        &&& created@.len() == old(self).population_size
                        &&& random::stream(final(self).rng) == words_after_placing(
                            *old(self),
                            old(self).population_size as nat,
                        )
                        &&& forall|i: int|
                            0 <= i < created@.len() ==> is_random_newcomer(
                                *p,
                                old(self).bounds@,
                                #[trigger] created@[i],
                            ) && created@[i].position@ == random_place(*old(self), i as nat)
                    },
                    Err(e) => is_random_failure(
                        *old(self),
                        *p,
                        e@,
                        random::stream(final(self).rng),
                    ),
                },
            },
    {
        if let Some(provided) = population {
            if provided.len() != self.population_size {
                let mut text = "NSGA-II: Provided population size (".to_string();
                text.append(text::decimal(provided.len() as u64).as_str());
                text.append(") does not match expected size (");
                text.append(text::decimal(self.population_size as u64).as_str());
                text.append(")");
                return Err(Error::Message { text });
            }
            let num_objectives: usize = match problem {
                None => {
                    return Err(Error::msg("NSGA-II: Problem not set"));
                },
                Some(p) => p.num_objectives(),
            };
            let mut idx: usize = 0;
            while idx < provided.len()
                invariant
                    *self == *old(self),
                    idx <= provided@.len(),
                    population_fault(provided@, num_objectives as nat, self.bounds@, 0)
                        == population_fault(
                        provided@,
                        num_objectives as nat,
                        self.bounds@,
                        idx as int,
                    ),
                decreases provided@.len() - idx,
            {
                if let Some(e) = check_individual(
                    idx,
                    &provided[idx],
                    num_objectives,
                    &self.bounds,
                ) {
                    return Err(e);
                }
                idx = idx + 1;
            }
            Ok(provided)
        } else {
            match problem {
                None => Err(Error::msg("NSGA-II: Problem not set")),
                Some(p) => {
                    let num_objectives: usize = p.num_objectives();
                    let mut created: Vec<Individual<Vec<F>, F>> = Vec::new();
                    while created.len() < self.population_size
                        invariant
                            self.same_settings(*old(self)),
                            num_objectives == p.objective_count(),
                            created@.len() <= self.population_size,
                            random::stream(self.rng) == words_after_placing(
                                *old(self),
                                created@.len(),
                            ),
                            forall|i: int|
                                0 <= i < created@.len() ==> is_random_newcomer(
                                    *p,
                                    self.bounds@,
                                    #[trigger] created@[i],
                                ) && created@[i].position@ == random_place(*old(self), i as nat),
                        decreases self.population_size - created@.len(),
                    {
                        let ghost i = created@.len();
                        let position = self.random_position();
                        let ghost place = position@;
                        proof {
                            let n = self.bounds@.len();
                            random::lemma_ahead(random::stream(old(self).rng), i * n, n);
                            assert(i * n + n == (i + 1) * n) by (nonlinear_arith);
                        }
                        let answer = p.objectives(&position);
                        let ghost said = error::outcome_view(answer);
                        assert(place == random_place(*old(self), i));
                        assert(is_random_answer(*p, self.bounds@, place, said));
                        match admit_newcomer(position, answer, num_objectives) {
                            Err(e) => {
                                assert(is_random_failure_at(
                                    *old(self),
                                    *p,
                                    e@,
                                    random::stream(self.rng),
                                    i,
                                    said,
                                ));
                                return Err(e);
                            },
                            Ok(newcomer) => {
                                created.push(newcomer);
                            },
                        }
                    }
                    Ok(created)
                },
            }
        }
    }
}

impl<F: ArgminFloat, R: RandomSource> NsgaII<F, R> {
    /// Two children of the population: two tournaments decide who the parents are, the parents
    /// cross, and what comes of that is mutated.
    pub fn breed(&mut self, population: &Vec<Individual<Vec<F>, F>>) -> (r: (Vec<F>, Vec<F>))
        requires
            population@.len() > 0,
            forall|i: int|
                0 <= i < population@.len() ==> (#[trigger] population@[i]).position@.len()
                    == population@[0].position@.len() && population@[i].position@.len() <= old(
                    self,
                ).bounds@.len(),
        ensures
            final(self).same_settings(*old(self)),
            is_brood(*old(self), population@, (r.0@, r.1@)),
            ((r.0@, r.1@), random::stream(final(self).rng)) == litter(
                *old(self),
                population@,
                random::stream(old(self).rng),
            ),
    {
        let p1_idx: usize = self.tournament_selection(population);
        let p2_idx: usize = self.tournament_selection(population);
        let (crossed1, crossed2) = self.crossover(
            &population[p1_idx].position,
            &population[p2_idx].position,
        );
        let child1_pos = self.mutate(&crossed1);
        let child2_pos = self.mutate(&crossed2);
        assert(is_parentage(
            *old(self),
            population@,
            p1_idx as int,
            p2_idx as int,
            (crossed1@, crossed2@),
            (child1_pos@, child2_pos@),
        ));
        (child1_pos, child2_pos)
    }

    /// The step from one generation to the next.
    #[verifier::loop_isolation(false)]
    pub fn next_iter<O: MultiObjectiveCostFunction<F>>(
        &mut self,
        problem: &O,
        population: Option<Vec<Individual<Vec<F>, F>>>,
    ) -> (r: Result<Vec<Individual<Vec<F>, F>>, Error>)
        requires
            population matches Some(people) ==> is_generation(
                *problem,
                old(self).bounds@,
                people@,
            ),
        ensures
            final(self).same_settings(*old(self)),
            population is None ==> *final(self) == *old(self),
            match population {
                None => r matches Err(e) && e@ == ErrorView::Message(
                    "NSGA-II: No population in state"@,
                ),
                Some(people) => match r {
                    Ok(next) => {
                        &&& is_successor(*old(self), *problem, people@, next@)
                        &&& random::stream(final(self).rng) == words_after(
                            *old(self),
                            people@,
                            ((old(self).population_size + 1) / 2) as nat,
                        )
                    },
                    Err(e) => is_breeding_failure(
                        *old(self),
                        *problem,
                        people@,
                        e@,
                        random::stream(final(self).rng),
                    ),
                },
            },
    {
        let population = match population {
            None => {
                return Err(Error::msg("NSGA-II: No population in state"));
            },
            Some(people) => people,
        };
        let ghost people = population@;
        let ghost settings = *self;
        let mut offspring: Vec<Individual<Vec<F>, F>> = Vec::new();
        while offspring.len() < self.population_size
            invariant
                self.same_settings(*old(self)),
                population@ == people,
                offspring@.len() <= self.population_size,
                offspring@.len() % 2 == 0 || offspring@.len() == self.population_size,
                random::stream(self.rng) == words_after(
                    settings,
                    people,
                    ((offspring@.len() + 1) / 2) as nat,
                ),
                forall|k: int|
                    0 <= k && 2 * k < offspring@.len() ==> #[trigger] is_litter(
                        settings,
                        *problem,
                        people,
                        offspring@,
                        k,
                    ),
            decreases self.population_size - offspring@.len(),
        {
            let ghost pair: nat = (offspring@.len() / 2) as nat;
            let ghost now = *self;
            let (child1_pos, child2_pos) = self.breed(&population);
            let ghost children = (child1_pos@, child2_pos@);
            proof {
                lemma_brood_ignores_generator(now, settings, people, children);
            }
            assert(children == born(settings, people, pair));
            let obj1 = match problem.objectives(&child1_pos) {
                Ok(objectives) => objectives,
                Err(e) => {
                    assert(is_failure_at(
                        settings,
                        *problem,
                        people,
                        e@,
                        random::stream(self.rng),
                        pair,
                        Err::<Seq<F>, ErrorView>(e@),
                    ));
                    return Err(e);
                },
            };
            let obj2 = match problem.objectives(&child2_pos) {
                Ok(objectives) => objectives,
                Err(e) => {
                    assert(is_failure_at(
                        settings,
                        *problem,
                        people,
                        e@,
                        random::stream(self.rng),
                        pair,
                        Err::<Seq<F>, ErrorView>(e@),
                    ));
                    return Err(e);
                },
            };
            if let Err(e) = check_offspring(&obj1) {
                assert(is_failure_at(
                    settings,
                    *problem,
                    people,
                    e@,
                    random::stream(self.rng),
                    pair,
                    Ok::<Seq<F>, ErrorView>(obj1@),
                ));
                return Err(e);
            }
            if let Err(e) = check_offspring(&obj2) {
                assert(is_failure_at(
                    settings,
                    *problem,
                    people,
                    e@,
                    random::stream(self.rng),
                    pair,
                    Ok::<Seq<F>, ErrorView>(obj2@),
                ));
                return Err(e);
            }
            let ghost before = offspring@;
            offspring.push(Individual::new(child1_pos, obj1));
            if offspring.len() < self.population_size {
                offspring.push(Individual::new(child2_pos, obj2));
            }
            proof {
                assert forall|k: int| 0 <= k && 2 * k < offspring@.len() implies #[trigger] is_litter(
                    settings,
                    *problem,
                    people,
                    offspring@,
                    k,
                ) by {
                    if 2 * k < before.len() {
                        assert(is_litter(settings, *problem, people, before, k));
                    }
                }
            }
        }
        let ghost born = offspring@;
        let mut combined = population;
        combined.append(&mut offspring);
        proof {
            assert(combined.len() == combined@.len());
            lemma_selectable(
                *problem,
                settings,
                people,
                born,
                self.population_size as nat,
            );
        }
        let next = self.select_next_generation(&mut combined);
        assert(is_successor_with(settings, *problem, people, born, combined@, next@));
        Ok(next)
    }
}

/// Whether a population has what a further generation needs: at least one member, positions of
/// one length that have bounds, as many objectives as the problem has, and ranks that leave room
/// for another. The problem has to answer with that many objectives, too.
pub open spec fn is_generation<F: ArgminFloat, O: MultiObjectiveCostFunction<F>>(
    problem: O,
    bounds: Seq<(F, F)>,
    population: Seq<Individual<Vec<F>, F>>,
) -> bool {
    &&& population.len() > 0
    &&& forall|i: int|
        0 <= i < population.len() ==> {
            &&& (#[trigger] population[i]).position@.len() == population[0].position@.len()
            &&& population[i].position@.len() <= bounds.len()
            &&& population[i].objectives@.len() == problem.objective_count()
            &&& population[i].rank < usize::MAX
        }
    &&& forall|position: Seq<F>, objectives: Seq<F>| #[trigger]
        problem.may_score(position, Ok::<Seq<F>, ErrorView>(objectives)) ==> objectives.len()
            == problem.objective_count()
}

/// Whether two children can come from individuals `a` and `b` by way of `between`.
pub open spec fn is_parentage<F: ArgminFloat, R>(
    settings: NsgaII<F, R>,
    population: Seq<Individual<Vec<F>, F>>,
    a: int,
    b: int,
    between: (Seq<F>, Seq<F>),
    children: (Seq<F>, Seq<F>),
) -> bool {
    &&& 0 <= a < population.len() && selection::is_tournament_winner(population, a)
    &&& 0 <= b < population.len() && selection::is_tournament_winner(population, b)
    &&& variation::is_crossing(
        settings.bounds@,
        settings.crossover_probability,
        settings.crossover_eta,
        (population[a].position@, population[b].position@),
        between,
    )
    &&& variation::is_mutation(
        settings.bounds@,
        settings.mutation_probability,
        settings.mutation_eta,
        between.0,
        children.0,
    )
    &&& variation::is_mutation(
        settings.bounds@,
        settings.mutation_probability,
        settings.mutation_eta,
        between.1,
        children.1,
    )
}

/// Whether two children can come from the population.
pub open spec fn is_brood<F: ArgminFloat, R>(
    settings: NsgaII<F, R>,
    population: Seq<Individual<Vec<F>, F>>,
    children: (Seq<F>, Seq<F>),
) -> bool {
    exists|a: int, b: int, between: (Seq<F>, Seq<F>)| #[trigger]
        is_parentage(settings, population, a, b, between, children)
}

/// Which children can come from the population does not depend on the generator.
proof fn lemma_brood_ignores_generator<F: ArgminFloat, R>(
    a: NsgaII<F, R>,
    b: NsgaII<F, R>,
    population: Seq<Individual<Vec<F>, F>>,
    children: (Seq<F>, Seq<F>),
)
    requires
        a.same_settings(b),
        is_brood(a, population, children),
    ensures
        is_brood(b, population, children),
{
    let (i, j, between) = choose|i: int, j: int, between: (Seq<F>, Seq<F>)| #[trigger]
        is_parentage(a, population, i, j, between, children);
    assert(is_parentage(b, population, i, j, between, children));
}

/// The two children that come from the population by the words of a generator, and the words that
/// are left after them: two tournaments decide who the parents are, the parents cross, and what
/// comes of that is mutated.
pub open spec fn litter<F: ArgminFloat, R: RandomSource>(
    settings: NsgaII<F, R>,
    population: Seq<Individual<Vec<F>, F>>,
    words: Map<nat, u64>,
) -> ((Seq<F>, Seq<F>), Map<nat, u64>) {
    let (a, after_a) = selection::tournament::<R, Vec<F>, F>(population, words);
    let (b, after_b) = selection::tournament::<R, Vec<F>, F>(population, after_a);
    let parents = (population[a as int].position@, population[b as int].position@);
    let between = variation::crossing(
        settings.bounds@,
        settings.crossover_probability,
        settings.crossover_eta,
        parents,
        after_b,
    );
    let crossed = random::ahead(
        after_b,
        variation::crossing_length(settings.crossover_probability, parents, after_b),
    );
    let mutated = random::ahead(
        crossed,
        variation::mutation_draws(settings.mutation_probability, crossed, between.0.len()),
    );
    let rest = random::ahead(
        mutated,
        variation::mutation_draws(settings.mutation_probability, mutated, between.1.len()),
    );
    (
        (
            variation::mutation(
                settings.bounds@,
                settings.mutation_probability,
                settings.mutation_eta,
                between.0,
                crossed,
            ),
            variation::mutation(
                settings.bounds@,
                settings.mutation_probability,
                settings.mutation_eta,
                between.1,
                mutated,
            ),
        ),
        rest,
    )
}

/// The words that are left after the first `k` pairs of children.
pub open spec fn words_after<F: ArgminFloat, R: RandomSource>(
    settings: NsgaII<F, R>,
    population: Seq<Individual<Vec<F>, F>>,
    k: nat,
) -> Map<nat, u64>
    decreases k,
{
    if k == 0 {
        random::stream(settings.rng)
    } else {
        litter(settings, population, words_after(settings, population, (k - 1) as nat)).1
    }
}

/// Pair `k` of the children.
pub open spec fn born<F: ArgminFloat, R: RandomSource>(
    settings: NsgaII<F, R>,
    population: Seq<Individual<Vec<F>, F>>,
    k: nat,
) -> (Seq<F>, Seq<F>) {
    litter(settings, population, words_after(settings, population, k)).0
}

/// Whether `r` is a new individual at `position`, with finite objectives that the problem may
/// answer for it.
pub open spec fn is_child<F: Real, O: MultiObjectiveCostFunction<F>>(
    problem: O,
    position: Seq<F>,
    r: Individual<Vec<F>, F>,
) -> bool {
    let answer = Ok::<Seq<F>, ErrorView>(r.objectives@);
    &&& problem.may_score(position, answer)
    &&& offspring_fault(answer) is None
    &&& is_newcomer(position, answer, r)
}

/// Whether the children numbered `2 * k` and `2 * k + 1`, if there is such a one, are pair `k`.
pub open spec fn is_litter<F: ArgminFloat, R: RandomSource, O: MultiObjectiveCostFunction<F>>(
    settings: NsgaII<F, R>,
    problem: O,
    population: Seq<Individual<Vec<F>, F>>,
    offspring: Seq<Individual<Vec<F>, F>>,
    k: int,
) -> bool {
    let children = born(settings, population, k as nat);
    &&& is_brood(settings, population, children)
    &&& is_child(problem, children.0, offspring[2 * k])
    &&& 2 * k + 1 < offspring.len() ==> is_child(problem, children.1, offspring[2 * k + 1])
}

/// Whether `next` is what is left of the population and the offspring after selection.
pub open spec fn is_successor_with<F: ArgminFloat, R: RandomSource, O: MultiObjectiveCostFunction<F>>(
    settings: NsgaII<F, R>,
    problem: O,
    population: Seq<Individual<Vec<F>, F>>,
    offspring: Seq<Individual<Vec<F>, F>>,
    after: Seq<Individual<Vec<F>, F>>,
    next: Seq<Individual<Vec<F>, F>>,
) -> bool {
    &&& offspring.len() == settings.population_size
    &&& population.len() + offspring.len() <= usize::MAX
    &&& forall|k: int|
        0 <= k && 2 * k < offspring.len() ==> #[trigger] is_litter(
            settings,
            problem,
            population,
            offspring,
            k,
        )
    &&& selection::is_next_generation(
        population + offspring,
        settings.population_size as nat,
        after,
        next,
    )
}

/// Whether `next` can come from the population.
pub open spec fn is_successor<F: ArgminFloat, R: RandomSource, O: MultiObjectiveCostFunction<F>>(
    settings: NsgaII<F, R>,
    problem: O,
    population: Seq<Individual<Vec<F>, F>>,
    next: Seq<Individual<Vec<F>, F>>,
) -> bool {
    exists|offspring: Seq<Individual<Vec<F>, F>>, after: Seq<Individual<Vec<F>, F>>| #[trigger]
        is_successor_with(settings, problem, population, offspring, after, next)
}

/// Whether the problem may give `answer` for one of two children.
pub open spec fn may_answer_for<F, O: MultiObjectiveCostFunction<F>>(
    problem: O,
    children: (Seq<F>, Seq<F>),
    answer: Result<Seq<F>, ErrorView>,
) -> bool {
    problem.may_score(children.0, answer) || problem.may_score(children.1, answer)
}

/// Whether an answer that the problem may give for one of pair `k` of the children leads to the
/// error, and `rest` are the words that are left.
pub open spec fn is_failure_at<F: ArgminFloat, R: RandomSource, O: MultiObjectiveCostFunction<F>>(
    settings: NsgaII<F, R>,
    problem: O,
    population: Seq<Individual<Vec<F>, F>>,
    e: ErrorView,
    rest: Map<nat, u64>,
    k: nat,
    answer: Result<Seq<F>, ErrorView>,
) -> bool {
    let children = born(settings, population, k);
    &&& rest == words_after(settings, population, k + 1)
    &&& 2 * k < settings.population_size
    &&& is_brood(settings, population, children)
    &&& may_answer_for(problem, children, answer)
    &&& offspring_fault(answer) == Some(e)
}

/// Whether an answer that the problem may give for a child leads to the error, and `rest` are the
/// words that are left.
pub open spec fn is_breeding_failure<
    F: ArgminFloat,
    R: RandomSource,
    O: MultiObjectiveCostFunction<F>,
>(
    settings: NsgaII<F, R>,
    problem: O,
    population: Seq<Individual<Vec<F>, F>>,
    e: ErrorView,
    rest: Map<nat, u64>,
) -> bool {
    exists|k: nat, answer: Result<Seq<F>, ErrorView>| #[trigger]
        is_failure_at(settings, problem, population, e, rest, k, answer)
}

/// A generation and its offspring can be selected from.
pub proof fn lemma_selectable<F: ArgminFloat, R: RandomSource, O: MultiObjectiveCostFunction<F>>(
    problem: O,
    settings: NsgaII<F, R>,
    population: Seq<Individual<Vec<F>, F>>,
    offspring: Seq<Individual<Vec<F>, F>>,
    size: nat,
)
    requires
        is_generation(problem, settings.bounds@, population),
        (population + offspring).len() <= usize::MAX,
        forall|k: int|
            0 <= k && 2 * k < offspring.len() ==> #[trigger] is_litter(
                settings,
                problem,
                population,
                offspring,
                k,
            ),
    ensures
        selection::is_selectable(population + offspring, size),
{
    let all = population + offspring;
    let people = sorting::ranked(all);
    let objectives = individual::objectives_of(all);
    assert forall|i: int| 0 <= i < all.len() implies (#[trigger] all[i]).objectives@.len()
        == problem.objective_count() && all[i].rank < usize::MAX by {
        if i >= population.len() {
            let j = i - population.len();
            let k = j / 2;
            assert(is_litter(settings, problem, population, offspring, k));
        }
    }
    assert forall|i: int| 0 <= i < people.len() implies (#[trigger] people[i]).rank < usize::MAX by {
        if let Some(r) = dominance::front_of(objectives, i) {
            dominance::law_front_below_population(objectives, r, i);
        }
    }
    assert forall|k: nat| #[trigger]
        selection::is_split(people, size, k) implies crowding::is_front_of(
        people,
        selection::front(people, k),
    ) by {
        selection::lemma_members(people, k, people.len() as int);
    }
}

/// Whether the problem may give `answer` for a random position.
pub open spec fn is_random_answer<F: ArgminFloat, O: MultiObjectiveCostFunction<F>>(
    problem: O,
    bounds: Seq<(F, F)>,
    position: Seq<F>,
    answer: Result<Seq<F>, ErrorView>,
) -> bool {
    variation::is_random_position(bounds, position) && problem.may_score(position, answer)
}

/// Whether `r` is a new individual at a random position, with objectives that the problem may
/// answer and that are sound.
pub open spec fn is_random_newcomer<F: ArgminFloat, O: MultiObjectiveCostFunction<F>>(
    problem: O,
    bounds: Seq<(F, F)>,
    r: Individual<Vec<F>, F>,
) -> bool {
    let answer = Ok::<Seq<F>, ErrorView>(r.objectives@);
    &&& is_random_answer(problem, bounds, r.position@, answer)
    &&& answer_fault(answer, problem.objective_count()) is None
    &&& is_newcomer(r.position@, answer, r)
}

/// The words that are left of those of the solver's generator after the first `k` new individuals
/// have been placed: each takes one word for every dimension.
pub open spec fn words_after_placing<F: ArgminFloat, R: RandomSource>(
    settings: NsgaII<F, R>,
    k: nat,
) -> Map<nat, u64> {
    random::ahead(random::stream(settings.rng), k * settings.bounds@.len())
}

/// Where the words of the solver's generator place new individual `i`.
pub open spec fn random_place<F: ArgminFloat, R: RandomSource>(
    settings: NsgaII<F, R>,
    i: nat,
) -> Seq<F> {
    variation::placing(settings.bounds@, words_after_placing(settings, i))
}

/// Whether an answer that the problem may give for new individual `i` leads to the error, and `rest`
/// are the words that are left.
pub open spec fn is_random_failure_at<
    F: ArgminFloat,
    R: RandomSource,
    O: MultiObjectiveCostFunction<F>,
>(
    settings: NsgaII<F, R>,
    problem: O,
    e: ErrorView,
    rest: Map<nat, u64>,
    i: nat,
    answer: Result<Seq<F>, ErrorView>,
) -> bool {
    &&& i < settings.population_size
    &&& problem.may_score(random_place(settings, i), answer)
    &&& answer_fault(answer, problem.objective_count()) == Some(e)
    &&& rest == words_after_placing(settings, i + 1)
}

/// Whether an answer that the problem may give for a new individual leads to the error, and `rest`
/// are the words that are left.
pub open spec fn is_random_failure<F: ArgminFloat, R: RandomSource, O: MultiObjectiveCostFunction<F>>(
    settings: NsgaII<F, R>,
    problem: O,
    e: ErrorView,
    rest: Map<nat, u64>,
) -> bool {
    exists|i: nat, answer: Result<Seq<F>, ErrorView>| #[trigger]
        is_random_failure_at(settings, problem, e, rest, i, answer)
}

} // verus!
