//! The members of a population.

use crate::float;
use crate::float::Real;
use vstd::prelude::*;

verus! {

/// Individual in the NSGA-II population
#[derive(Clone, Debug)]
pub struct Individual<P, F> {
    /// Decision variables
    pub position: P,
    /// Objective function values
    pub objectives: Vec<F>,
    /// Non-domination rank (0 is best, lower is better)
    pub rank: usize,
    /// Crowding distance (higher is better for diversity)
    pub crowding_distance: F,
}

/// The abstract value of an individual.
pub struct IndividualView<V, F> {
    /// Decision variables
    pub position: V,
    /// Objective function values
    pub objectives: Seq<F>,
    /// Non-domination rank
    pub rank: nat,
    /// Crowding distance
    pub crowding_distance: F,
}

impl<P: View, F> View for Individual<P, F> {
    type V = IndividualView<P::V, F>;

    open spec fn view(&self) -> IndividualView<P::V, F> {
        IndividualView {
            position: self.position@,
            objectives: self.objectives@,
            rank: self.rank as nat,
            crowding_distance: self.crowding_distance,
        }
    }
}

/// The objective values of all members of a population.
pub open spec fn objectives_of<P, F>(population: Seq<Individual<P, F>>) -> Seq<Seq<F>> {
    Seq::new(population.len(), |i: int| population[i].objectives@)
}

impl<P, F: Real> Individual<P, F> {
    /// Create a new individual
    pub fn new(position: P, objectives: Vec<F>) -> (r: Self)
        ensures
            r.position == position,
            r.objectives == objectives,
            r.rank == 0,
            r.crowding_distance == float::zero::<F>(),
    {
        Individual { position, objectives, rank: 0, crowding_distance: F::decimal(0, 0) }
    }
}

/// The same values once more.
pub fn copy_values<F: Copy>(values: &[F]) -> (r: Vec<F>)
    ensures
        r@ == values@,
{
    let mut r: Vec<F> = Vec::new();
    let mut i: usize = 0;
    while i < values.len()
        invariant
            i <= values@.len(),
            r@ =~= values@.take(i as int),
        decreases values@.len() - i,
    {
        r.push(values[i]);
        i = i + 1;
    }
    assert(r@ =~= values@);
    r
}

impl<F: Real> Individual<Vec<F>, F> {
    /// The same individual once more.
    pub fn duplicate(&self) -> (r: Self)
        ensures
            r@ == self@,
    {
        Individual {
            position: copy_values(&self.position),
            objectives: copy_values(&self.objectives),
            rank: self.rank,
            crowding_distance: self.crowding_distance,
        }
    }
}

} // verus!
