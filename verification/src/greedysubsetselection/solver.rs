//! The solver and its settings.

use crate::error;
use crate::error::{Error, ErrorView};
use crate::float;
use crate::float::{ArgminFloat, Real};
use crate::greedysubsetselection::cost;
use crate::greedysubsetselection::cost::{Subset, SubsetSelectionCost, SubsetView};
use crate::greedysubsetselection::pareto;
use crate::greedysubsetselection::pareto::{solve_pareto, ParetoSelection};
use crate::greedysubsetselection::starts;
use crate::greedysubsetselection::starts::solve;
use crate::random;
use vstd::prelude::*;

verus! {

/// Constraint on the selected subset size.
#[derive(Copy, Clone, Debug, Eq, PartialEq, Structural)]
pub enum SizeMode {
    /// Subset must have exactly this size.
    Fixed(usize),
    /// Subset size must lie in `[min, max]` inclusive.
    Bounded {
        /// Minimum subset size.
        min: usize,
        /// Maximum subset size.
        max: usize,
    },
}

/// Greedy subset selection with seeded random restarts and 2-opt refinement.
#[derive(Clone, Debug)]
pub struct GreedySubsetSelection {
    /// Subset size constraint.
    pub size_mode: SizeMode,
    /// Number of starts. Start 0 is greedy; later starts are random.
    pub n_starts: usize,
    /// Seed used to derive all random starts.
    pub seed: u64,
    /// Maximum number of accepted 2-opt swaps per start.
    pub max_local_iterations: usize,
}

/// How far a run of the solver has come.
pub struct SelectionState<F> {
    /// The selected items.
    pub param: Vec<usize>,
    /// Their cost.
    pub cost: F,
    /// Whether the solver has converged.
    pub converged: bool,
}

/// The abstract value of a state.
#[verifier::ext_equal]
pub struct SelectionStateView<F> {
    /// The selected items.
    pub param: Seq<usize>,
    /// Their cost.
    pub cost: F,
    /// Whether the solver has converged.
    pub converged: bool,
}

impl<F> View for SelectionState<F> {
    type V = SelectionStateView<F>;

    open spec fn view(&self) -> SelectionStateView<F> {
        SelectionStateView { param: self.param@, cost: self.cost, converged: self.converged }
    }
}

/// The subset that a solver with these settings selects.
pub open spec fn choice<P: SubsetSelectionCost>(
    problem: P,
    settings: GreedySubsetSelection,
) -> Result<SubsetView<P::Cost>, ErrorView> {
    match settings.size_mode {
        SizeMode::Fixed(target_size) => starts::solution(
            problem,
            target_size,
            settings.n_starts as nat,
            settings.seed,
            settings.max_local_iterations,
        ),
        SizeMode::Bounded { min, max } => match pareto::pareto_front(
            problem,
            min as nat,
            max as nat,
            settings.n_starts as nat,
            settings.seed,
            settings.max_local_iterations,
            ParetoSelection::MinCost,
        ) {
            Err(e) => Err(e),
            Ok(front) => Ok(front.solutions[front.selected_index as int]),
        },
    }
}

/// The state after the solver has selected a subset.
pub open spec fn state_for<F: ArgminFloat>(best: SubsetView<F::Wide>) -> Result<
    SelectionStateView<F>,
    ErrorView,
> {
    match F::spec_cast(best.cost) {
        Some(cost) => Ok(SelectionStateView { param: best.indices, cost, converged: true }),
        None => Err(
            ErrorView::InvalidParameter(
                "`GreedySubsetSelection`: cost is not representable in the state's float type."@,
            ),
        ),
    }
}

/// A solver that may choose the size selects a subset that costs no more than what it finds at any of
/// the sizes.
pub proof fn law_choice_costs_least<P: SubsetSelectionCost>(
    problem: P,
    settings: GreedySubsetSelection,
    min: usize,
    max: usize,
    size: usize,
)
    requires
        cost::has_defined_costs(problem),
        settings.size_mode == (SizeMode::Bounded { min, max }),
        min <= size <= max,
    ensures
        choice(problem, settings) matches Ok(best) ==> starts::solution(
            problem,
            size,
            settings.n_starts as nat,
            random::seeded_stream(settings.seed)[(size - min) as nat],
            settings.max_local_iterations,
        ) matches Ok(s) && float::at_most(best.cost, s.cost),
{
    let count = (max - min + 1) as nat;
    let (n, seed, limit) = (
        settings.n_starts as nat,
        settings.seed,
        settings.max_local_iterations,
    );
    if let Ok(best) = choice(problem, settings) {
        let found = pareto::solutions_by_size(problem, min as nat, count, n, seed, limit)->Ok_0;
        let k = size - min;
        pareto::law_every_size_has_its_own_seed(problem, min as nat, count, n, seed, limit, k);
        assert forall|i: int| 0 <= i < found.len() implies float::defined(
            #[trigger] found[i].cost,
        ) by {
            pareto::law_every_size_has_its_own_seed(
                problem,
                min as nat,
                count,
                n,
                seed,
                limit,
                i,
            );
            starts::law_solution_is_best_start(
                problem,
                (min + i) as usize,
                n,
                random::seeded_stream(seed)[i as nat],
                limit,
            );
        }
        pareto::law_front_covers(found, k);
        pareto::law_front_has_defined_costs(found, k);
        let front = pareto::front_of(found);
        let j = choose|j: int| {
            &&& 0 <= j < front.len()
            &&& (#[trigger] front[j]).indices.len() <= found[k].indices.len()
            &&& float::at_most(front[j].cost, found[k].cost)
        };
        pareto::law_min_cost_is_best(front, j);
        pareto::law_selected_is_in_front(front, ParetoSelection::MinCost);
        assert(float::defined(front[j].cost));
        P::Cost::order_laws(best.cost, front[j].cost, found[k].cost);
        P::Cost::order_laws(front[j].cost, best.cost, front[j].cost);
        assert(best == front[pareto::selected(front, ParetoSelection::MinCost) as int]);
    }
}

impl GreedySubsetSelection {
    /// Construct a new greedy subset selection solver.
    #[must_use]
    pub fn new(size_mode: SizeMode) -> (r: Self)
        ensures
            r == (GreedySubsetSelection {
                size_mode,
                n_starts: 5,
                seed: 0,
                max_local_iterations: usize::MAX,
            }),
    {
        GreedySubsetSelection { size_mode, n_starts: 5, seed: 0, max_local_iterations: usize::MAX }
    }

    /// Set the number of starts.
    #[must_use]
    pub fn with_n_starts(self, n_starts: usize) -> (r: Self)
        ensures
            r == (GreedySubsetSelection { n_starts, ..self }),
    {
        GreedySubsetSelection { n_starts, ..self }
    }

    /// Set the random seed.
    #[must_use]
    pub fn with_seed(self, seed: u64) -> (r: Self)
        ensures
            r == (GreedySubsetSelection { seed, ..self }),
    {
        GreedySubsetSelection { seed, ..self }
    }

    /// Set the maximum number of accepted local-search swaps per start.
    #[must_use]
    pub fn with_max_local_iterations(self, max_local_iterations: usize) -> (r: Self)
        ensures
            r == (GreedySubsetSelection { max_local_iterations, ..self }),
    {
        GreedySubsetSelection { max_local_iterations, ..self }
    }

    /// The name of the solver.
    pub fn name(&self) -> (r: &'static str)
        ensures
            r@ == "GreedySubsetSelection"@,
    {
        "GreedySubsetSelection"
    }

    /// Selects a subset.
    pub fn init<O: SubsetSelectionCost, F: ArgminFloat<Wide = O::Cost>>(&self, problem: &O) -> (r:
        Result<SelectionState<F>, Error>)
        ensures
            error::outcome_view(r) == match choice(*problem, *self) {
                Err(e) => Err(e),
                Ok(best) => state_for::<F>(best),
            },
            cost::is_total(*problem) && self.n_starts > 0 && match self.size_mode {
                SizeMode::Fixed(target_size) => 2 <= target_size <= problem.item_count(),
                SizeMode::Bounded { min, max } => 2 <= min <= max <= problem.item_count(),
            } ==> choice(*problem, *self) is Ok,
    {
        let best: Subset<O::Cost> = match self.size_mode {
            SizeMode::Fixed(target_size) => match solve(
                problem,
                target_size,
                self.n_starts,
                self.seed,
                self.max_local_iterations,
            ) {
                Err(e) => {
                    return Err(e);
                },
                Ok(s) => s,
            },
            SizeMode::Bounded { min, max } => match solve_pareto(
                problem,
                min..=max,
                self.n_starts,
                self.seed,
                self.max_local_iterations,
                ParetoSelection::MinCost,
            ) {
                Err(e) => {
                    return Err(e);
                },
                Ok(front) => {
                    let mut front = front;
                    front.solutions.swap_remove(front.selected_index)
                },
            },
        };
        match F::cast(best.cost) {
            Some(cost) => Ok(SelectionState { param: best.indices, cost, converged: true }),
            None => Err(
                Error::invalid_parameter(
                    "`GreedySubsetSelection`: cost is not representable in the state's float type.",
                ),
            ),
        }
    }

    /// Has nothing left to do: the solver converges when it selects a subset.
    pub fn next_iter<F>(&self, state: SelectionState<F>) -> (r: SelectionState<F>)
        ensures
            r@ == (SelectionStateView { converged: true, ..state@ }),
    {
        SelectionState { converged: true, ..state }
    }

    /// Whether the solver has converged.
    pub fn terminate<F>(&self, state: &SelectionState<F>) -> (r: bool)
        ensures
            r == state.converged,
    {
        state.converged
    }
}

} // verus!
